//! The grid and its mathematical model.
//!
//! A grid is modelled as a sequence of rows, each a sequence of characters.
//! Everything the solver promises is stated over this model.

use vstd::prelude::*;

verus! {

/// The character that marks a cell without a digit.
pub const BLANK: char = '.';

/// The model of a board held as a vector of rows.
pub open spec fn grid_of(board: Vec<Vec<char>>) -> Seq<Seq<char>> {
    Seq::new(board.len() as nat, |r: int| board[r]@)
}

/// The model of a board held as a slice of row slices.
pub open spec fn rows_of(board: &[&[char]]) -> Seq<Seq<char>> {
    Seq::new(board.len() as nat, |r: int| board[r]@)
}

/// Both coordinates lie on the board.
pub open spec fn on_board(r: int, c: int) -> bool {
    0 <= r < 9 && 0 <= c < 9
}

/// The grid has nine rows of nine cells.
pub open spec fn shaped(g: Seq<Seq<char>>) -> bool {
    g.len() == 9 && forall|r: int| 0 <= r < 9 ==> (#[trigger] g[r]).len() == 9
}

/// The character is one of `'1'..='9'`.
pub open spec fn is_digit(ch: char) -> bool {
    '1' <= ch <= '9'
}

/// The character that stands for the digit `d`.
pub open spec fn digit_char(d: int) -> char {
    ('0' as int + d) as char
}

/// The cell holds the blank mark or a digit.
pub open spec fn cell_ok(ch: char) -> bool {
    ch == BLANK || is_digit(ch)
}

/// The grid has the right shape and every cell is blank or a digit.
pub open spec fn well_formed(g: Seq<Seq<char>>) -> bool {
    shaped(g) && forall|r: int, c: int| on_board(r, c) ==> cell_ok(#[trigger] g[r][c])
}

/// The index of the 3×3 block that holds the cell.
pub open spec fn block_of(r: int, c: int) -> int {
    (r / 3) * 3 + c / 3
}

/// Some cell of row `r` holds `ch`.
pub open spec fn in_row(g: Seq<Seq<char>>, r: int, ch: char) -> bool {
    exists|j: int| 0 <= j < 9 && #[trigger] g[r][j] == ch
}

/// Some cell of column `c` holds `ch`.
pub open spec fn in_col(g: Seq<Seq<char>>, c: int, ch: char) -> bool {
    exists|i: int| 0 <= i < 9 && #[trigger] g[i][c] == ch
}

/// Some cell of block `b` holds `ch`.
pub open spec fn in_block(g: Seq<Seq<char>>, b: int, ch: char) -> bool {
    exists|i: int, j: int| on_board(i, j) && block_of(i, j) == b && #[trigger] g[i][j] == ch
}

/// `ch` already occurs in the row, the column or the block of the cell `(r, c)`.
pub open spec fn occupied(g: Seq<Seq<char>>, r: int, c: int, ch: char) -> bool {
    in_row(g, r, ch) || in_col(g, c, ch) || in_block(g, block_of(r, c), ch)
}

/// The digit `d` may be written at `(r, c)`: it occurs nowhere in the row,
/// the column and the block of that cell.
pub open spec fn candidate(g: Seq<Seq<char>>, r: int, c: int, d: int) -> bool {
    !occupied(g, r, c, digit_char(d))
}

/// The grid with the cell `(r, c)` set to `ch`.
pub open spec fn place(g: Seq<Seq<char>>, r: int, c: int, ch: char) -> Seq<Seq<char>> {
    g.update(r, g[r].update(c, ch))
}

/// The characters of two digits are equal only where the digits are.
pub proof fn lemma_digit_char(d: int, e: int)
    requires
        1 <= d <= 9,
        1 <= e <= 9,
    ensures
        digit_char(d) != BLANK,
        digit_char(d) == digit_char(e) ==> d == e,
        digit_char(d) as int == '0' as int + d,
{
}

/// Tells whether `c` may be written at `(row, col)`: whether it occurs nowhere
/// in that row, that column and that block.
pub fn is_valid(board: &[&[char]], row: usize, col: usize, c: char) -> (ok: bool)
    requires
        shaped(rows_of(board)),
        on_board(row as int, col as int),
    ensures
        ok == !occupied(rows_of(board), row as int, col as int, c),
{
    let ghost g = rows_of(board);
    let br: usize = row / 3 * 3;
    let bc: usize = col / 3 * 3;
    let mut i: usize = 0;
    while i < 9
        invariant
            0 <= i <= 9,
            g == rows_of(board),
            shaped(g),
            on_board(row as int, col as int),
            br == row / 3 * 3,
            bc == col / 3 * 3,
            forall|k: int| 0 <= k < i ==> g[row as int][k] != c,
            forall|k: int| 0 <= k < i ==> g[k][col as int] != c,
            forall|a: int, b: int|
                on_board(a, b) && block_of(a, b) == block_of(row as int, col as int) && (a % 3) * 3
                    + b % 3 < i ==> #[trigger] g[a][b] != c,
        decreases 9 - i,
    {
        assert(g[row as int] == board[row as int]@);
        assert(g[i as int] == board[i as int]@);
        assert(g[br + i / 3] == board[br + i / 3]@);
        if board[row][i] == c || board[i][col] == c || board[br + i / 3][bc + i % 3] == c {
            proof {
                if g[row as int][i as int] == c {
                    assert(in_row(g, row as int, c));
                } else if g[i as int][col as int] == c {
                    assert(in_col(g, col as int, c));
                } else {
                    assert(on_board(br + i / 3, bc + i % 3));
                    assert(block_of(br + i / 3, bc + i % 3) == block_of(row as int, col as int));
                    assert(in_block(g, block_of(row as int, col as int), c));
                }
            }
            return false;
        }
        i += 1;
    }
    true
}

} // verus!
