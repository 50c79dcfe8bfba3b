//! What a solved Sudoku is.
//!
//! This module says when a grid is solved, when the digits of a grid clash,
//! and what it is to complete a grid, and proves how the three hang together.

use vstd::prelude::*;
use crate::grid::{
    BLANK, block_of, candidate, digit_char, in_block, in_col, in_row, is_digit, lemma_digit_char,
    occupied, on_board, place, shaped, well_formed,
};

verus! {

/// The two cells are different and lie in one row, one column or one block.
pub open spec fn peers(r: int, c: int, i: int, j: int) -> bool {
    (r != i || c != j) && (r == i || c == j || block_of(r, c) == block_of(i, j))
}

/// No other cell in the row, the column or the block of `(r, c)` holds what
/// that cell holds.
pub open spec fn clash_free(s: Seq<Seq<char>>, r: int, c: int) -> bool {
    forall|i: int, j: int| on_board(i, j) && peers(r, c, i, j) ==> #[trigger] s[i][j] != s[r][c]
}

/// No digit of the grid occurs a second time in its row, column or block.
pub open spec fn consistent(g: Seq<Seq<char>>) -> bool {
    forall|r: int, c: int| on_board(r, c) && g[r][c] != BLANK ==> #[trigger] clash_free(g, r, c)
}

/// Every cell of the grid holds a digit.
pub open spec fn full(s: Seq<Seq<char>>) -> bool {
    shaped(s) && forall|r: int, c: int| on_board(r, c) ==> is_digit(#[trigger] s[r][c])
}

/// `s` keeps every digit of `g`.
pub open spec fn keeps(g: Seq<Seq<char>>, s: Seq<Seq<char>>) -> bool {
    forall|r: int, c: int| on_board(r, c) && g[r][c] != BLANK ==> #[trigger] s[r][c] == g[r][c]
}

/// `s` is a completion of `g`: it is full, keeps the digits of `g`, and the
/// digit in each cell that was blank in `g` occurs nowhere else in that cell's
/// row, column and block.
pub open spec fn completes(g: Seq<Seq<char>>, s: Seq<Seq<char>>) -> bool {
    &&& full(s)
    &&& keeps(g, s)
    &&& forall|r: int, c: int| on_board(r, c) && g[r][c] == BLANK ==> #[trigger] clash_free(s, r, c)
}

/// `ch` stands in exactly one cell of row `r`.
pub open spec fn once_in_row(s: Seq<Seq<char>>, r: int, ch: char) -> bool {
    exists|j: int|
        0 <= j < 9 && #[trigger] s[r][j] == ch && forall|k: int|
            0 <= k < 9 && #[trigger] s[r][k] == ch ==> k == j
}

/// `ch` stands in exactly one cell of column `c`.
pub open spec fn once_in_col(s: Seq<Seq<char>>, c: int, ch: char) -> bool {
    exists|i: int|
        0 <= i < 9 && #[trigger] s[i][c] == ch && forall|k: int|
            0 <= k < 9 && #[trigger] s[k][c] == ch ==> k == i
}

/// `ch` stands in exactly one cell of block `b`.
pub open spec fn once_in_block(s: Seq<Seq<char>>, b: int, ch: char) -> bool {
    exists|i: int, j: int|
        on_board(i, j) && block_of(i, j) == b && #[trigger] s[i][j] == ch && forall|
            k: int,
            l: int,
        |
            on_board(k, l) && block_of(k, l) == b && #[trigger] s[k][l] == ch ==> k == i && l == j
}

/// The grid is a solved Sudoku: in every row, every column and every block
/// each of the digits 1 to 9 stands exactly once.
pub open spec fn solved(s: Seq<Seq<char>>) -> bool {
    &&& shaped(s)
    &&& forall|u: int, d: int|
        0 <= u < 9 && 1 <= d <= 9 ==> #[trigger] once_in_row(s, u, digit_char(d))
    &&& forall|u: int, d: int|
        0 <= u < 9 && 1 <= d <= 9 ==> #[trigger] once_in_col(s, u, digit_char(d))
    &&& forall|u: int, d: int|
        0 <= u < 9 && 1 <= d <= 9 ==> #[trigger] once_in_block(s, u, digit_char(d))
}

/// A digit is a candidate for a cell exactly when no cell of the cell's row,
/// column and block holds it.
pub proof fn lemma_candidate(g: Seq<Seq<char>>, r: int, c: int, d: int)
    requires
        on_board(r, c),
    ensures
        candidate(g, r, c, d) <==> forall|i: int, j: int|
            on_board(i, j) && (i == r || j == c || block_of(i, j) == block_of(r, c))
                ==> #[trigger] g[i][j] != digit_char(d),
{
    let ch = digit_char(d);
    if in_row(g, r, ch) {
        let j = choose|j: int| 0 <= j < 9 && #[trigger] g[r][j] == ch;
        assert(on_board(r, j));
    }
    if in_col(g, c, ch) {
        let i = choose|i: int| 0 <= i < 9 && #[trigger] g[i][c] == ch;
        assert(on_board(i, c));
    }
    if !occupied(g, r, c, ch) {
        assert forall|i: int, j: int|
            on_board(i, j) && (i == r || j == c || block_of(i, j) == block_of(
                r,
                c,
            )) implies #[trigger] g[i][j] != ch by {
            if g[i][j] == ch {
                if i == r {
                    assert(in_row(g, r, ch));
                } else if j == c {
                    assert(in_col(g, c, ch));
                } else {
                    assert(in_block(g, block_of(r, c), ch));
                }
            }
        }
    }
}

/// Pigeonhole: a list of `n` different numbers below `n` holds every number
/// below `n`.
pub proof fn lemma_pigeonhole(f: Seq<int>, v: int) -> (at: int)
    requires
        forall|i: int| 0 <= i < f.len() ==> 0 <= #[trigger] f[i] < f.len(),
        forall|i: int, j: int| 0 <= i < j < f.len() ==> f[i] != f[j],
        0 <= v < f.len(),
    ensures
        0 <= at < f.len(),
        f[at] == v,
    decreases f.len(),
{
    if exists|i: int| 0 <= i < f.len() && #[trigger] f[i] == v {
        choose|i: int| 0 <= i < f.len() && #[trigger] f[i] == v
    } else {
        // Without `v` among them, the first `n - 1` numbers, with `v` written
        // for `n - 1`, are different numbers below `n - 1`, and so is the last.
        let n = f.len() as int;
        let rest = Seq::new(
            (n - 1) as nat,
            |i: int|
                if f[i] == n - 1 {
                    v
                } else {
                    f[i]
                },
        );
        let last = if f[n - 1] == n - 1 {
            v
        } else {
            f[n - 1]
        };
        assert(f[n - 1] != v);
        assert forall|i: int| 0 <= i < rest.len() implies 0 <= #[trigger] rest[i] < rest.len() by {
            assert(f[i] != v);
            assert(f[i] != f[n - 1]);
        }
        assert forall|i: int, j: int| 0 <= i < j < rest.len() implies rest[i] != rest[j] by {
            assert(f[i] != v && f[j] != v);
            assert(f[i] != f[j]);
        }
        let i = lemma_pigeonhole(rest, last);
        assert(f[i] != v);
        assert(f[i] != f[n - 1]);
        assert(false);
        0
    }
}

/// Nine different digits are all the digits: each stands at some place.
pub proof fn lemma_unit(unit: Seq<char>, d: int) -> (at: int)
    requires
        unit.len() == 9,
        forall|k: int| 0 <= k < 9 ==> is_digit(#[trigger] unit[k]),
        forall|k: int, l: int| 0 <= k < l < 9 ==> unit[k] != unit[l],
        1 <= d <= 9,
    ensures
        0 <= at < 9,
        unit[at] == digit_char(d),
{
    let f = Seq::new(9, |k: int| unit[k] as int - '1' as int);
    assert forall|i: int| 0 <= i < f.len() implies 0 <= #[trigger] f[i] < f.len() by {
        assert(is_digit(unit[i]));
    }
    assert forall|i: int, j: int| 0 <= i < j < f.len() implies f[i] != f[j] by {
        assert(unit[i] != unit[j]);
    }
    let at = lemma_pigeonhole(f, d - 1);
    assert(is_digit(unit[at]));
    at
}

/// In a full grid whose cells all differ from their peers, every digit stands
/// exactly once in every row, column and block.
pub proof fn lemma_clash_free_solved(s: Seq<Seq<char>>)
    requires
        full(s),
        forall|r: int, c: int| on_board(r, c) ==> #[trigger] clash_free(s, r, c),
    ensures
        solved(s),
{
    assert forall|u: int, d: int| 0 <= u < 9 && 1 <= d <= 9 implies #[trigger] once_in_row(
        s,
        u,
        digit_char(d),
    ) by {
        let unit = Seq::new(9, |k: int| s[u][k]);
        assert forall|k: int, l: int| 0 <= k < l < 9 implies unit[k] != unit[l] by {
            assert(clash_free(s, u, k));
            assert(on_board(u, l) && peers(u, k, u, l));
        }
        let at = lemma_unit(unit, d);
        assert(s[u][at] == digit_char(d));
        assert forall|k: int| 0 <= k < 9 && #[trigger] s[u][k] == digit_char(d) implies k == at by {
            if k != at {
                assert(clash_free(s, u, at));
                assert(on_board(u, k) && peers(u, at, u, k));
            }
        }
    }
    assert forall|u: int, d: int| 0 <= u < 9 && 1 <= d <= 9 implies #[trigger] once_in_col(
        s,
        u,
        digit_char(d),
    ) by {
        let unit = Seq::new(9, |k: int| s[k][u]);
        assert forall|k: int, l: int| 0 <= k < l < 9 implies unit[k] != unit[l] by {
            assert(clash_free(s, k, u));
            assert(on_board(l, u) && peers(k, u, l, u));
        }
        let at = lemma_unit(unit, d);
        assert(s[at][u] == digit_char(d));
        assert forall|k: int| 0 <= k < 9 && #[trigger] s[k][u] == digit_char(d) implies k == at by {
            if k != at {
                assert(clash_free(s, at, u));
                assert(on_board(k, u) && peers(at, u, k, u));
            }
        }
    }
    assert forall|u: int, d: int| 0 <= u < 9 && 1 <= d <= 9 implies #[trigger] once_in_block(
        s,
        u,
        digit_char(d),
    ) by {
        let top = (u / 3) * 3;
        let left = (u % 3) * 3;
        let unit = Seq::new(9, |k: int| s[top + k / 3][left + k % 3]);
        assert forall|k: int, l: int| 0 <= k < l < 9 implies unit[k] != unit[l] by {
            assert(clash_free(s, top + k / 3, left + k % 3));
            assert(on_board(top + l / 3, left + l % 3));
            assert(peers(top + k / 3, left + k % 3, top + l / 3, left + l % 3));
        }
        assert forall|k: int| 0 <= k < 9 implies is_digit(#[trigger] unit[k]) by {
            assert(on_board(top + k / 3, left + k % 3));
        }
        let at = lemma_unit(unit, d);
        let i = top + at / 3;
        let j = left + at % 3;
        assert(on_board(i, j) && block_of(i, j) == u);
        assert(s[i][j] == digit_char(d));
        assert forall|k: int, l: int|
            on_board(k, l) && block_of(k, l) == u && #[trigger] s[k][l] == digit_char(
                d,
            ) implies k == i && l == j by {
            if k != i || l != j {
                assert(clash_free(s, i, j));
                assert(peers(i, j, k, l));
            }
        }
    }
}

/// In a solved grid every cell holds a digit.
pub proof fn lemma_solved_full(s: Seq<Seq<char>>)
    requires
        solved(s),
    ensures
        full(s),
{
    assert forall|r: int, c: int| on_board(r, c) implies is_digit(#[trigger] s[r][c]) by {
        // The places of the nine digits in row `r` are nine different places.
        let place_of = Seq::new(
            9,
            |k: int| choose|j: int| 0 <= j < 9 && #[trigger] s[r][j] == digit_char(k + 1),
        );
        assert forall|k: int| 0 <= k < 9 implies 0 <= #[trigger] place_of[k] < 9
            && s[r][place_of[k]] == digit_char(k + 1) by {
            assert(once_in_row(s, r, digit_char(k + 1)));
        }
        assert forall|k: int, l: int| 0 <= k < l < place_of.len() implies place_of[k]
            != place_of[l] by {
            assert(s[r][place_of[k]] == digit_char(k + 1));
            assert(s[r][place_of[l]] == digit_char(l + 1));
            lemma_digit_char(k + 1, l + 1);
        }
        let k = lemma_pigeonhole(place_of, c);
        assert(s[r][place_of[k]] == digit_char(k + 1));
        lemma_digit_char(k + 1, k + 1);
    }
}

/// In a solved grid no cell holds what one of its peers holds.
pub proof fn lemma_solved_clash_free(s: Seq<Seq<char>>, r: int, c: int)
    requires
        solved(s),
        on_board(r, c),
    ensures
        clash_free(s, r, c),
{
    lemma_solved_full(s);
    let ch = s[r][c];
    let d = ch as int - '0' as int;
    assert(is_digit(ch));
    assert(digit_char(d) == ch);
    assert forall|i: int, j: int| on_board(i, j) && peers(r, c, i, j) implies #[trigger] s[i][j]
        != ch by {
        if s[i][j] == ch {
            if r == i {
                assert(once_in_row(s, r, digit_char(d)));
            } else if c == j {
                assert(once_in_col(s, c, digit_char(d)));
            } else {
                assert(once_in_block(s, block_of(r, c), digit_char(d)));
            }
        }
    }
}

/// A grid whose digits a solved grid keeps has no clashes.
pub proof fn lemma_solved_consistent(g: Seq<Seq<char>>, s: Seq<Seq<char>>)
    requires
        keeps(g, s),
        solved(s),
    ensures
        consistent(g),
{
    assert forall|r: int, c: int| on_board(r, c) && g[r][c] != BLANK implies #[trigger] clash_free(
        g,
        r,
        c,
    ) by {
        lemma_solved_clash_free(s, r, c);
        assert forall|i: int, j: int| on_board(i, j) && peers(r, c, i, j) implies #[trigger] g[i][j]
            != g[r][c] by {
            if g[i][j] == g[r][c] {
                assert(s[i][j] == g[i][j]);
                assert(s[r][c] == g[r][c]);
            }
        }
    }
}

/// Writing a candidate digit into a blank cell of a grid without clashes
/// gives a grid without clashes.
pub proof fn lemma_place_consistent(g: Seq<Seq<char>>, r: int, c: int, d: int)
    requires
        shaped(g),
        consistent(g),
        on_board(r, c),
        g[r][c] == BLANK,
        1 <= d <= 9,
        candidate(g, r, c, d),
    ensures
        consistent(place(g, r, c, digit_char(d))),
{
    let h = place(g, r, c, digit_char(d));
    lemma_candidate(g, r, c, d);
    lemma_digit_char(d, d);
    assert forall|i: int, j: int| on_board(i, j) && h[i][j] != BLANK implies #[trigger] clash_free(
        h,
        i,
        j,
    ) by {
        assert forall|k: int, l: int| on_board(k, l) && peers(i, j, k, l) implies #[trigger] h[k][l]
            != h[i][j] by {
            if i == r && j == c {
                assert(h[k][l] == g[k][l]);
            } else if k == r && l == c {
                assert(h[i][j] == g[i][j]);
            } else {
                assert(clash_free(g, i, j));
                assert(h[k][l] == g[k][l]);
                assert(h[i][j] == g[i][j]);
            }
        }
    }
}

/// Where a digit stands in a cell and also elsewhere in the cell's row,
/// column or block, the grid has a clash.
pub proof fn lemma_clash(g: Seq<Seq<char>>, r: int, c: int, i: int, j: int)
    requires
        on_board(r, c),
        on_board(i, j),
        peers(r, c, i, j),
        g[r][c] != BLANK,
        g[i][j] == g[r][c],
    ensures
        !consistent(g),
{
    if consistent(g) {
        assert(clash_free(g, r, c));
    }
}

/// A completion of a grid is a solved Sudoku exactly when no digit of the
/// grid clashes with another.
pub proof fn lemma_completion_solved(g: Seq<Seq<char>>, s: Seq<Seq<char>>)
    requires
        well_formed(g),
        completes(g, s),
    ensures
        solved(s) <==> consistent(g),
{
    if consistent(g) {
        assert forall|r: int, c: int| on_board(r, c) implies #[trigger] clash_free(s, r, c) by {
            if g[r][c] != BLANK {
                assert(clash_free(g, r, c));
                assert forall|i: int, j: int|
                    on_board(i, j) && peers(r, c, i, j) implies #[trigger] s[i][j] != s[r][c] by {
                    if g[i][j] == BLANK {
                        assert(clash_free(s, i, j));
                        assert(peers(i, j, r, c));
                    } else {
                        assert(s[i][j] == g[i][j]);
                        assert(s[r][c] == g[r][c]);
                    }
                }
            }
        }
        lemma_clash_free_solved(s);
    }
    if solved(s) {
        lemma_solved_consistent(g, s);
    }
}

/// The completions of a grid without clashes are the solved grids that keep
/// its digits.
pub proof fn lemma_completions(g: Seq<Seq<char>>, s: Seq<Seq<char>>)
    requires
        well_formed(g),
        consistent(g),
    ensures
        completes(g, s) <==> solved(s) && keeps(g, s),
{
    if completes(g, s) {
        lemma_completion_solved(g, s);
    }
    if solved(s) && keeps(g, s) {
        lemma_solved_full(s);
        assert forall|r: int, c: int|
            on_board(r, c) && g[r][c] == BLANK implies #[trigger] clash_free(s, r, c) by {
            lemma_solved_clash_free(s, r, c);
        }
    }
}

} // verus!
