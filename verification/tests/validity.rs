use solve_sudoku::{build_state, is_valid, solve_opt};

fn board_of(rows: [&str; 9]) -> Vec<Vec<char>> {
    rows.iter().map(|row| row.chars().collect()).collect()
}

const PUZZLE: [&str; 9] = [
    "53..7....",
    "6..195...",
    ".98....6.",
    "8...6...3",
    "4..8.3..1",
    "7...2...6",
    ".6....28.",
    "...419..5",
    "....8..79",
];

fn check(board: &Vec<Vec<char>>, row: usize, col: usize, c: char) -> bool {
    let rows: Vec<&[char]> = board.iter().map(|r| r.as_slice()).collect();
    is_valid(&rows, row, col, c)
}

/// The digit stands in the row, the column or the block of the cell.
fn occurs(board: &Vec<Vec<char>>, row: usize, col: usize, c: char) -> bool {
    for i in 0..9 {
        for j in 0..9 {
            let shares = i == row || j == col || (i / 3 == row / 3 && j / 3 == col / 3);
            if shares && board[i][j] == c {
                return true;
            }
        }
    }
    false
}

#[test]
fn is_valid_sees_the_row() {
    let board = board_of(PUZZLE);
    assert!(!check(&board, 0, 2, '7'));
    assert!(!check(&board, 0, 8, '5'));
}

#[test]
fn is_valid_sees_the_column() {
    let board = board_of(PUZZLE);
    assert!(!check(&board, 6, 0, '4'));
    assert!(!check(&board, 2, 8, '5'));
}

#[test]
fn is_valid_sees_the_block() {
    let board = board_of(PUZZLE);
    assert!(!check(&board, 2, 0, '3'));
    assert!(!check(&board, 8, 6, '5'));
    assert!(!check(&board, 4, 4, '2'));
}

#[test]
fn is_valid_accepts_a_free_digit() {
    let board = board_of(PUZZLE);
    assert!(check(&board, 0, 2, '4'));
    assert!(check(&board, 0, 2, '1'));
    assert!(check(&board, 8, 0, '3'));
}

#[test]
fn is_valid_counts_the_cell_itself() {
    let board = board_of(PUZZLE);
    assert!(!check(&board, 0, 0, '5'));
}

#[test]
fn is_valid_agrees_with_a_full_scan() {
    let mut boards = vec![board_of(PUZZLE), board_of(["........."; 9])];
    // Grids filled from a fixed pseudo-random sequence.
    let mut seed: u32 = 12345;
    for _ in 0..20 {
        let mut board = board_of(["........."; 9]);
        for r in 0..9 {
            for c in 0..9 {
                seed = seed.wrapping_mul(1103515245).wrapping_add(12345);
                let pick = (seed >> 16) % 30;
                if pick >= 1 && pick <= 9 {
                    board[r][c] = char::from_digit(pick, 10).unwrap();
                }
            }
        }
        boards.push(board);
    }
    for board in &boards {
        for r in 0..9 {
            for c in 0..9 {
                for d in "123456789".chars() {
                    assert_eq!(check(board, r, c, d), !occurs(board, r, c, d));
                }
            }
        }
    }
}

#[test]
fn build_state_collects_digits_and_blanks() {
    let board = board_of(PUZZLE);
    let state = build_state(&board).unwrap();
    // Row 0 holds 3, 5 and 7; column 0 holds 4 to 8; the middle block 2, 3, 6, 8.
    assert_eq!(state.rows[0], (1 << 3) | (1 << 5) | (1 << 7));
    assert_eq!(state.cols[0], (1 << 4) | (1 << 5) | (1 << 6) | (1 << 7) | (1 << 8));
    assert_eq!(state.blocks[4], (1 << 2) | (1 << 3) | (1 << 6) | (1 << 8));
    assert_eq!(state.blocks[2], 1 << 6);
    assert_eq!(state.empties.len(), 51);
    assert_eq!(&state.empties[..4], &[(0, 2), (0, 3), (0, 5), (0, 6)]);
    assert_eq!(state.empties[50], (8, 6));
    assert!(state.consistent);
}

#[test]
fn build_state_notes_a_clash_and_still_collects() {
    let mut rows = PUZZLE;
    rows[0] = "535.7....";
    let state = build_state(&board_of(rows)).unwrap();
    assert!(!state.consistent);
    assert_eq!(state.rows[0], (1 << 3) | (1 << 5) | (1 << 7));
    assert_eq!(state.empties.len(), 50);
    assert_eq!(state.empties[0], (0, 3));
}

#[test]
fn build_state_tells_a_clash_in_each_kind_of_unit() {
    let clean = board_of([
        "1........",
        "...1.....",
        ".........",
        ".1.......",
        ".........",
        ".........",
        ".........",
        ".........",
        ".........",
    ]);
    assert!(build_state(&clean).unwrap().consistent);
    for (r, c) in [(0, 8), (8, 0), (2, 2)] {
        let mut board = board_of(["........."; 9]);
        board[0][0] = '6';
        board[r][c] = '6';
        assert!(!build_state(&board).unwrap().consistent);
        board[r][c] = '7';
        assert!(build_state(&board).unwrap().consistent);
    }
}

#[test]
fn build_state_of_the_empty_grid() {
    let board = board_of(["........."; 9]);
    let state = build_state(&board).unwrap();
    assert_eq!(state.rows, [0; 9]);
    assert_eq!(state.cols, [0; 9]);
    assert_eq!(state.blocks, [0; 9]);
    assert_eq!(state.empties.len(), 81);
    for k in 0..81 {
        assert_eq!(state.empties[k], (k / 9, k % 9));
    }
    assert!(state.consistent);
}

#[test]
fn build_state_reports_an_invalid_cell() {
    let mut rows = PUZZLE;
    rows[3] = "8...6.?.3";
    let cell = build_state(&board_of(rows)).err().unwrap();
    assert_eq!((cell.row, cell.col), (3, 6));
}

#[test]
fn solve_opt_restores_its_state_on_failure() {
    let mut rows = PUZZLE;
    rows[0] = "535.7....";
    let given = board_of(rows);
    let mut board = given.clone();
    let mut state = build_state(&board).unwrap();
    let before = (state.rows, state.cols, state.blocks, state.empties.clone());
    let found = solve_opt(
        &mut board,
        &mut state.rows,
        &mut state.cols,
        &mut state.blocks,
        &mut state.empties,
        0,
    );
    assert!(!found);
    assert_eq!(board, given);
    assert_eq!((state.rows, state.cols, state.blocks, state.empties), before);
}

#[test]
fn solve_opt_branches_on_the_cell_with_fewest_candidates() {
    // Two cells are listed: (0, 0) can take 1 or 2, (8, 0) only 9. The search
    // moves (8, 0) to the front of the list and fills it first.
    let mut board = board_of([
        ".3456789.",
        ".........",
        ".........",
        ".........",
        ".........",
        ".........",
        ".........",
        ".........",
        ".12345678",
    ]);
    let mut state = build_state(&board).unwrap();
    let mut empties = vec![(0, 0), (8, 0)];
    assert!(solve_opt(
        &mut board,
        &mut state.rows,
        &mut state.cols,
        &mut state.blocks,
        &mut empties,
        0
    ));
    assert_eq!(board[8][0], '9');
    assert_eq!(board[0][0], '1');
    assert_eq!(board[0][8], '.');
    assert_eq!(empties, vec![(8, 0), (0, 0)]);
    assert_eq!(state.rows[8], 0x3FE);
    assert_eq!(state.rows[0], 0x3FE & !(1 << 2));
    assert_eq!(state.cols[0], (1 << 1) | (1 << 9));
}

#[test]
fn solve_opt_takes_the_first_of_equally_constrained_cells() {
    // Both listed cells can take 1 or 2; the first stays in front and gets 1.
    let mut board = board_of([
        ".3456789.",
        ".........",
        ".........",
        ".........",
        ".........",
        ".........",
        ".........",
        ".........",
        ".........",
    ]);
    let mut state = build_state(&board).unwrap();
    let mut empties = vec![(0, 8), (0, 0)];
    assert!(solve_opt(
        &mut board,
        &mut state.rows,
        &mut state.cols,
        &mut state.blocks,
        &mut empties,
        0
    ));
    assert_eq!(board[0][8], '1');
    assert_eq!(board[0][0], '2');
    assert_eq!(empties, vec![(0, 8), (0, 0)]);
}

#[test]
fn solve_opt_at_the_end_of_the_list_changes_nothing() {
    let given = board_of(PUZZLE);
    let mut board = given.clone();
    let mut state = build_state(&board).unwrap();
    let depth = state.empties.len();
    assert!(solve_opt(
        &mut board,
        &mut state.rows,
        &mut state.cols,
        &mut state.blocks,
        &mut state.empties,
        depth
    ));
    assert_eq!(board, given);
}

#[test]
fn solve_opt_writes_the_only_digit_that_row_column_and_block_leave() {
    // Row 0 holds 1, 2, 3; column 0 holds 4, 5, 6; the block holds 7 and 8.
    let mut board = board_of([
        "...123...",
        ".7.......",
        "..8......",
        "4........",
        "5........",
        "6........",
        ".........",
        ".........",
        ".........",
    ]);
    let mut state = build_state(&board).unwrap();
    let mut empties = vec![(0, 0)];
    assert!(solve_opt(
        &mut board,
        &mut state.rows,
        &mut state.cols,
        &mut state.blocks,
        &mut empties,
        0
    ));
    assert_eq!(board[0][0], '9');
    assert_eq!(state.rows[0], (1 << 1) | (1 << 2) | (1 << 3) | (1 << 9));
    assert_eq!(state.cols[0], (1 << 4) | (1 << 5) | (1 << 6) | (1 << 9));
    assert_eq!(state.blocks[0], (1 << 7) | (1 << 8) | (1 << 9));
}

#[test]
fn solve_opt_fails_where_the_block_takes_the_last_digit() {
    // As above, with 9 in the block as well: nothing is left for (0, 0).
    let given = board_of([
        "...123...",
        ".7.......",
        ".98......",
        "4........",
        "5........",
        "6........",
        ".........",
        ".........",
        ".........",
    ]);
    let mut board = given.clone();
    let mut state = build_state(&board).unwrap();
    let before = (state.rows, state.cols, state.blocks);
    let mut empties = vec![(0, 0)];
    assert!(!solve_opt(
        &mut board,
        &mut state.rows,
        &mut state.cols,
        &mut state.blocks,
        &mut empties,
        0
    ));
    assert_eq!(board, given);
    assert_eq!((state.rows, state.cols, state.blocks), before);
    assert_eq!(empties, vec![(0, 0)]);
}

#[test]
fn solve_opt_tries_digits_in_ascending_order_and_backtracks() {
    // (0, 0) can take 1 or 2 and is tried first; with 1 there, nothing is left
    // for (0, 1), which can only take 1. The search comes back and writes 2.
    let mut board = board_of([
        "..3456789",
        ".........",
        ".........",
        ".2.......",
        ".........",
        ".........",
        ".........",
        ".........",
        ".........",
    ]);
    let mut state = build_state(&board).unwrap();
    let mut empties = vec![(0, 1), (0, 0)];
    assert!(solve_opt(
        &mut board,
        &mut state.rows,
        &mut state.cols,
        &mut state.blocks,
        &mut empties,
        0
    ));
    assert_eq!(board[0][1], '1');
    assert_eq!(board[0][0], '2');
}
