//! The solver's entry points.
//!
//! `solve_sudoku` scans the grid once, building the digit masks of every row,
//! column and block and the list of blank cells, and noting whether a digit
//! occurs twice in a row, column or block. Where none does, it runs the search.

use vstd::prelude::*;
use crate::grid::{
    BLANK, block_of, candidate, cell_ok, digit_char, grid_of, in_block, in_col, in_row,
    lemma_digit_char, on_board, place, shaped, well_formed,
};
use crate::laws::{lemma_blank_cells, lemma_solution_solved, lemma_solvable};
use crate::masks::{digits_only, has_bit, lemma_mark, tracks};
use crate::rules::{consistent, keeps, lemma_candidate, lemma_clash, lemma_place_consistent, solved};
use crate::search::{search, solve_opt};

verus! {

/// A cell that holds neither the blank mark nor a digit.
#[derive(Debug, Clone, Copy, PartialEq, Eq, Structural)]
pub struct InvalidCell {
    pub row: usize,
    pub col: usize,
}

/// What the scan of a grid finds: the digits present in every row, column
/// and block, the cells that are to be filled, and whether the digits are
/// free of clashes.
pub struct SearchState {
    pub rows: [u16; 9],
    pub cols: [u16; 9],
    pub blocks: [u16; 9],
    pub empties: Vec<(usize, usize)>,
    pub consistent: bool,
}

/// The `k`-th cell in row-major order.
pub open spec fn cell_at(k: int) -> (usize, usize) {
    ((k / 9) as usize, (k % 9) as usize)
}

/// The position of a cell in row-major order.
pub open spec fn rank(cell: (usize, usize)) -> int {
    cell.0 * 9 + cell.1
}

/// The blank cells among the first `k` cells in row-major order, in that order.
pub open spec fn blank_cells_before(g: Seq<Seq<char>>, k: int) -> Seq<(usize, usize)>
    decreases k,
{
    if k <= 0 {
        Seq::empty()
    } else if g[(k - 1) / 9][(k - 1) % 9] == BLANK {
        blank_cells_before(g, k - 1).push(cell_at(k - 1))
    } else {
        blank_cells_before(g, k - 1)
    }
}

/// The blank cells of the grid in row-major order.
pub open spec fn blank_cells(g: Seq<Seq<char>>) -> Seq<(usize, usize)> {
    blank_cells_before(g, 81)
}

/// The grid that the solver ends in, or `None` where it reports failure:
/// where a digit of the grid occurs twice in a row, column or block, or the
/// search finds that the blanks cannot be filled.
pub open spec fn solution(g: Seq<Seq<char>>) -> Option<Seq<Seq<char>>> {
    if consistent(g) {
        search(g, blank_cells(g), 0)
    } else {
        None
    }
}

/// How a run of the solver on the grid `g` ends: it reports `done` and leaves
/// the grid `s`.
pub open spec fn ends(g: Seq<Seq<char>>, done: bool, s: Seq<Seq<char>>) -> bool {
    match solution(g) {
        Some(t) => done && s == t,
        None => !done && s == g,
    }
}

/// `(r, c)` is the first cell in row-major order that holds neither the blank
/// mark nor a digit.
pub open spec fn first_invalid(g: Seq<Seq<char>>, r: int, c: int) -> bool {
    &&& on_board(r, c)
    &&& !cell_ok(g[r][c])
    &&& forall|i: int, j: int|
        on_board(i, j) && i * 9 + j < r * 9 + c ==> cell_ok(#[trigger] g[i][j])
}

/// The grid with every cell from the `k`-th on, in row-major order, blanked.
pub open spec fn scanned(g: Seq<Seq<char>>, k: int) -> Seq<Seq<char>> {
    Seq::new(
        9,
        |r: int|
            Seq::new(
                9,
                |c: int|
                    if r * 9 + c < k {
                        g[r][c]
                    } else {
                        BLANK
                    },
            ),
    )
}

/// Scans the grid once: collects the digits of every row, column and block,
/// lists the blank cells in row-major order, and notes whether some digit
/// occurs twice in a row, column or block. Stops at the first cell that holds
/// neither the blank mark nor a digit.
pub fn build_state(board: &Vec<Vec<char>>) -> (built: Result<SearchState, InvalidCell>)
    requires
        shaped(grid_of(*board)),
    ensures
        built.is_ok() <==> well_formed(grid_of(*board)),
        match built {
            Ok(state) => {
                &&& tracks(grid_of(*board), state.rows@, state.cols@, state.blocks@)
                &&& state.empties@ == blank_cells(grid_of(*board))
                &&& state.consistent == consistent(grid_of(*board))
            },
            Err(cell) => first_invalid(grid_of(*board), cell.row as int, cell.col as int),
        },
{
    let ghost g = grid_of(*board);
    let mut rows: [u16; 9] = [0; 9];
    let mut cols: [u16; 9] = [0; 9];
    let mut blocks: [u16; 9] = [0; 9];
    let mut empties: Vec<(usize, usize)> = Vec::new();
    let mut ok: bool = true;
    proof {
        lemma_scan_start(g, rows@);
        assert(cols@ =~= rows@);
        assert(blocks@ =~= rows@);
    }
    let mut r: usize = 0;
    while r < 9
        invariant
            0 <= r <= 9,
            g == grid_of(*board),
            shaped(g),
            tracks(scanned(g, r * 9), rows@, cols@, blocks@),
            empties@ == blank_cells_before(g, r * 9),
            ok ==> consistent(scanned(g, r * 9)),
            !ok ==> !consistent(g),
            forall|i: int, j: int| on_board(i, j) && i < r ==> cell_ok(#[trigger] g[i][j]),
        decreases 9 - r,
    {
        let mut c: usize = 0;
        while c < 9
            invariant
                0 <= r < 9,
                0 <= c <= 9,
                g == grid_of(*board),
                shaped(g),
                tracks(scanned(g, r * 9 + c), rows@, cols@, blocks@),
                empties@ == blank_cells_before(g, r * 9 + c),
                ok ==> consistent(scanned(g, r * 9 + c)),
                !ok ==> !consistent(g),
                forall|i: int, j: int|
                    on_board(i, j) && i * 9 + j < r * 9 + c ==> cell_ok(#[trigger] g[i][j]),
            decreases 9 - c,
        {
            let ghost k: int = r * 9 + c;
            proof {
                assert(g[r as int] == board[r as int]@);
                lemma_scan_step(g, r as int, c as int);
                assert(k / 9 == r && k % 9 == c);
            }
            let ch = board[r][c];
            if ch == BLANK {
                empties.push((r, c));
            } else if '1' <= ch && ch <= '9' {
                let d: u32 = ch as u32 - '0' as u32;
                let bit: u16 = 1u16 << d;
                let b: usize = (r / 3) * 3 + c / 3;
                let seen: bool = (rows[r] | cols[c] | blocks[b]) & bit != 0;
                proof {
                    lemma_seen(g, rows@, cols@, blocks@, r as int, c as int, d as int);
                }
                if seen {
                    ok = false;
                }
                proof {
                    lemma_mark(
                        scanned(g, k),
                        rows@,
                        cols@,
                        blocks@,
                        r as int,
                        c as int,
                        d as int,
                    );
                    assert(digit_char(d as int) == ch);
                }
                rows[r] |= bit;
                cols[c] |= bit;
                blocks[b] |= bit;
            } else {
                return Err(InvalidCell { row: r, col: c });
            }
            c += 1;
        }
        r += 1;
    }
    proof {
        lemma_scan_end(g);
    }
    Ok(SearchState { rows, cols, blocks, empties, consistent: ok })
}

/// Solves the grid in place, and reports whether it could.
///
/// On `true` the grid is a solved Sudoku and the digits it was given are where
/// they were. On `false` no solved Sudoku keeps the given digits, and the grid
/// is as it was. Where several do, `solution` fixes the one that is found.
pub fn solve_sudoku(board: &mut Vec<Vec<char>>) -> (done: bool)
    requires
        well_formed(grid_of(*old(board))),
    ensures
        ends(grid_of(*old(board)), done, grid_of(*final(board))),
        done <==> exists|s: Seq<Seq<char>>| solved(s) && keeps(grid_of(*old(board)), s),
        done ==> solved(grid_of(*final(board))) && keeps(
            grid_of(*old(board)),
            grid_of(*final(board)),
        ),
        !done ==> grid_of(*final(board)) == grid_of(*old(board)),
{
    match try_solve_sudoku(board) {
        Ok(done) => done,
        Err(_) => false,
    }
}

/// Solves the grid as `solve_sudoku` does, unless some cell holds neither the
/// blank mark nor a digit: then nothing is written and the first such cell in
/// row-major order is reported.
pub fn try_solve_sudoku(board: &mut Vec<Vec<char>>) -> (outcome: Result<bool, InvalidCell>)
    requires
        shaped(grid_of(*old(board))),
    ensures
        outcome.is_ok() <==> well_formed(grid_of(*old(board))),
        match outcome {
            Ok(done) => {
                &&& ends(grid_of(*old(board)), done, grid_of(*final(board)))
                &&& done <==> exists|s: Seq<Seq<char>>|
                    solved(s) && keeps(grid_of(*old(board)), s)
                &&& done ==> solved(grid_of(*final(board))) && keeps(
                    grid_of(*old(board)),
                    grid_of(*final(board)),
                )
                &&& !done ==> grid_of(*final(board)) == grid_of(*old(board))
            },
            Err(cell) => {
                &&& first_invalid(grid_of(*old(board)), cell.row as int, cell.col as int)
                &&& grid_of(*final(board)) == grid_of(*old(board))
            },
        },
{
    let ghost g = grid_of(*board);
    match build_state(board) {
        Ok(state) => {
            proof {
                lemma_solvable(g);
            }
            if !state.consistent {
                return Ok(false);
            }
            let mut state = state;
            proof {
                lemma_blank_cells(g);
            }
            let done = solve_opt(
                board,
                &mut state.rows,
                &mut state.cols,
                &mut state.blocks,
                &mut state.empties,
                0,
            );
            proof {
                if done {
                    lemma_solution_solved(g);
                }
            }
            Ok(done)
        },
        Err(cell) => Err(cell),
    }
}

/// Before the scan nothing has been seen, and masks without bits say so.
proof fn lemma_scan_start(g: Seq<Seq<char>>, zeros: Seq<u16>)
    requires
        zeros.len() == 9,
        forall|u: int| 0 <= u < 9 ==> zeros[u] == 0,
    ensures
        tracks(scanned(g, 0), zeros, zeros, zeros),
{
    let s = scanned(g, 0);
    assert forall|u: int| 0 <= u < 9 implies #[trigger] digits_only(zeros[u]) by {
        assert(0u16 & !0x3FEu16 == 0) by (bit_vector);
    }
    assert forall|u: int, d: int| 0 <= u < 9 && 1 <= d <= 9 implies !#[trigger] has_bit(
        zeros[u],
        d,
    ) by {
        assert(0u16 & (1u16 << (d as u16)) == 0) by (bit_vector);
    }
    assert forall|i: int, j: int| on_board(i, j) implies #[trigger] s[i][j] == BLANK by {}
}

/// Scanning one more cell adds what that cell holds.
proof fn lemma_scan_step(g: Seq<Seq<char>>, r: int, c: int)
    requires
        shaped(g),
        on_board(r, c),
    ensures
        scanned(g, r * 9 + c + 1) == place(scanned(g, r * 9 + c), r, c, g[r][c]),
        scanned(g, r * 9 + c)[r][c] == BLANK,
        shaped(scanned(g, r * 9 + c)),
        g[r][c] == BLANK ==> scanned(g, r * 9 + c + 1) == scanned(g, r * 9 + c),
{
    let a = scanned(g, r * 9 + c);
    let b = scanned(g, r * 9 + c + 1);
    let p = place(a, r, c, g[r][c]);
    assert forall|i: int| 0 <= i < 9 implies #[trigger] b[i] =~= p[i] by {}
    assert(b =~= p);
    if g[r][c] == BLANK {
        assert forall|i: int| 0 <= i < 9 implies #[trigger] b[i] =~= a[i] by {}
        assert(b =~= a);
    }
}

/// After the last cell the whole grid has been seen.
proof fn lemma_scan_end(g: Seq<Seq<char>>)
    requires
        shaped(g),
    ensures
        scanned(g, 81) == g,
{
    let s = scanned(g, 81);
    assert forall|i: int| 0 <= i < 9 implies #[trigger] s[i] =~= g[i] by {}
    assert(s =~= g);
}

/// What the masks of the cells scanned so far say of the digit in the next
/// cell: where they hold it, the grid has a clash; where they do not, writing
/// it keeps what was scanned free of clashes.
proof fn lemma_seen(
    g: Seq<Seq<char>>,
    rows: Seq<u16>,
    cols: Seq<u16>,
    blocks: Seq<u16>,
    r: int,
    c: int,
    d: int,
)
    requires
        shaped(g),
        on_board(r, c),
        1 <= d <= 9,
        g[r][c] == digit_char(d),
        tracks(scanned(g, r * 9 + c), rows, cols, blocks),
    ensures
        ((rows[r] | cols[c] | blocks[block_of(r, c)]) & (1u16 << (d as u16)) != 0)
            ==> !consistent(g),
        ((rows[r] | cols[c] | blocks[block_of(r, c)]) & (1u16 << (d as u16)) == 0) && consistent(
            scanned(g, r * 9 + c),
        ) ==> consistent(scanned(g, r * 9 + c + 1)),
{
    let pre = scanned(g, r * 9 + c);
    let b = block_of(r, c);
    let ch = digit_char(d);
    let (x, y, z) = (rows[r], cols[c], blocks[b]);
    let e = d as u16;
    assert(((x | y | z) & (1u16 << e) != 0) <==> (x & (1u16 << e) != 0 || y & (1u16 << e) != 0
        || z & (1u16 << e) != 0)) by (bit_vector);
    assert(has_bit(rows[r], d) <==> in_row(pre, r, ch));
    assert(has_bit(cols[c], d) <==> in_col(pre, c, ch));
    assert(has_bit(blocks[b], d) <==> in_block(pre, b, ch));
    lemma_scan_step(g, r, c);
    lemma_candidate(pre, r, c, d);
    lemma_digit_char(d, d);
    if candidate(pre, r, c, d) {
        if consistent(pre) {
            lemma_place_consistent(pre, r, c, d);
        }
    } else {
        let (i, j) = choose|i: int, j: int|
            on_board(i, j) && (i == r || j == c || block_of(i, j) == block_of(r, c))
                && #[trigger] pre[i][j] == ch;
        assert(g[i][j] == ch);
        lemma_clash(g, r, c, i, j);
    }
}

} // verus!
