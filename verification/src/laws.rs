//! What the search guarantees.
//!
//! The search is defined step by step. This module proves what its outcome
//! means: it ends in a completion of the given grid whenever one exists, and
//! in nothing else; and for the solver, which searches only grids without
//! clashes, that it ends in a solved Sudoku whenever one keeps the given
//! digits.

use vstd::prelude::*;
use crate::grid::{
    BLANK, block_of, candidate, digit_char, is_digit, lemma_digit_char, on_board, place, shaped,
    well_formed,
};
use crate::rules::{
    clash_free, completes, consistent, keeps, lemma_candidate, lemma_completions,
    lemma_solved_consistent, lemma_solved_full, peers, solved,
};
use crate::search::{
    is_at, lemma_listed_step, lemma_listed_swapped, lemma_pending_placed, lemma_pending_swapped,
    lemma_select_in_range, listed, pending, search, select, swapped, try_from,
};
use crate::solver::{blank_cells, blank_cells_before, cell_at, ends, rank, solution};

verus! {

/// `s` fills the cells listed from `idx` on and is `g` elsewhere: each listed
/// cell holds a digit that occurs nowhere else in its row, column and block.
pub open spec fn fills(
    g: Seq<Seq<char>>,
    blanks: Seq<(usize, usize)>,
    idx: int,
    s: Seq<Seq<char>>,
) -> bool {
    &&& shaped(s)
    &&& forall|i: int, j: int|
        on_board(i, j) && #[trigger] listed(blanks, idx, i, j) ==> is_digit(s[i][j]) && clash_free(
            s,
            i,
            j,
        )
    &&& forall|i: int, j: int|
        on_board(i, j) && !#[trigger] listed(blanks, idx, i, j) ==> s[i][j] == g[i][j]
}

/// Validity and fidelity: the grid that the solver ends in is a solved Sudoku
/// and holds every digit of the given grid where it was.
pub proof fn lemma_solution_solved(g: Seq<Seq<char>>)
    requires
        well_formed(g),
        solution(g).is_some(),
    ensures
        solved(solution(g).unwrap()),
        keeps(g, solution(g).unwrap()),
{
    let s = solution(g).unwrap();
    lemma_blank_cells(g);
    lemma_search_sound(g, blank_cells(g), 0, s);
    lemma_completes(g, s);
    lemma_completions(g, s);
}

/// Completeness: where some solved Sudoku holds every digit of the given grid
/// where it is, the solver ends in one.
pub proof fn lemma_solution_found(g: Seq<Seq<char>>, s: Seq<Seq<char>>)
    requires
        well_formed(g),
        solved(s),
        keeps(g, s),
    ensures
        solution(g).is_some(),
{
    lemma_solved_consistent(g, s);
    lemma_completions(g, s);
    lemma_blank_cells(g);
    lemma_completes(g, s);
    lemma_search_complete(g, blank_cells(g), 0, s);
}

/// The solver succeeds exactly when some solved Sudoku keeps the digits of
/// the given grid.
pub proof fn lemma_solvable(g: Seq<Seq<char>>)
    requires
        well_formed(g),
    ensures
        solution(g).is_some() <==> exists|s: Seq<Seq<char>>| solved(s) && keeps(g, s),
{
    if solution(g).is_some() {
        lemma_solution_solved(g);
        let s = solution(g).unwrap();
        assert(solved(s) && keeps(g, s));
    }
    if exists|s: Seq<Seq<char>>| solved(s) && keeps(g, s) {
        let s = choose|s: Seq<Seq<char>>| solved(s) && keeps(g, s);
        lemma_solution_found(g, s);
    }
}

/// A grid in which a digit occurs twice in a row, column or block has no
/// solution, with or without blanks.
pub proof fn lemma_clash_unsolvable(g: Seq<Seq<char>>)
    requires
        !consistent(g),
    ensures
        solution(g).is_none(),
        forall|s: Seq<Seq<char>>| !(solved(s) && keeps(g, s)),
{
    assert forall|s: Seq<Seq<char>>| !(solved(s) && keeps(g, s)) by {
        if solved(s) && keeps(g, s) {
            lemma_solved_consistent(g, s);
        }
    }
}

/// Where one solved Sudoku only keeps the digits of the given grid, the
/// solver ends in it.
pub proof fn lemma_only_solution(g: Seq<Seq<char>>, s: Seq<Seq<char>>)
    requires
        well_formed(g),
        solved(s),
        keeps(g, s),
        forall|t: Seq<Seq<char>>| solved(t) && keeps(g, t) ==> t == s,
    ensures
        solution(g) == Some(s),
{
    lemma_solution_found(g, s);
    lemma_solution_solved(g);
}

/// A solved grid is its own solution.
pub proof fn lemma_nothing_to_fill(g: Seq<Seq<char>>)
    requires
        solved(g),
    ensures
        solution(g) == Some(g),
{
    lemma_solved_full(g);
    lemma_solved_consistent(g, g);
    lemma_blank_cells_before(g, 81);
    let blanks = blank_cells(g);
    if blanks.len() > 0 {
        assert(g[blanks[0].0 as int][blanks[0].1 as int] == BLANK);
        assert(is_digit(g[blanks[0].0 as int][blanks[0].1 as int]));
    }
}

/// Determinism: the outcome of the solver is a function of the given grid.
/// Two runs on the same grid that end as the solver's contract says agree in
/// what they report and in the grid they leave.
pub proof fn lemma_same_outcome(
    g: Seq<Seq<char>>,
    first_done: bool,
    first: Seq<Seq<char>>,
    second_done: bool,
    second: Seq<Seq<char>>,
)
    requires
        ends(g, first_done, first),
        ends(g, second_done, second),
    ensures
        first_done == second_done,
        first == second,
{
}

/// Soundness of the search: the grid it ends in fills the listed cells and is
/// the given grid elsewhere.
pub proof fn lemma_search_sound(
    g: Seq<Seq<char>>,
    blanks: Seq<(usize, usize)>,
    idx: int,
    s: Seq<Seq<char>>,
)
    requires
        shaped(g),
        pending(g, blanks, idx),
        search(g, blanks, idx) == Some(s),
    ensures
        fills(g, blanks, idx, s),
    decreases blanks.len() - idx,
{
    if idx < blanks.len() {
        let order = swapped(blanks, idx, select(g, blanks, idx));
        lemma_order(g, blanks, idx);
        let w = lemma_try_witness(g, order, idx, 1);
        let r = order[idx].0 as int;
        let c = order[idx].1 as int;
        let h = place(g, r, c, digit_char(w));
        lemma_pending_placed(g, order, idx, digit_char(w));
        lemma_search_sound(h, order, idx + 1, s);
        lemma_digit_char(w, w);
        lemma_candidate(g, r, c, w);
        lemma_listed_next(g, order, idx);
        assert(!listed(order, idx + 1, r, c));
        assert(s[r][c] == digit_char(w));
        assert forall|i: int, j: int| on_board(i, j) && peers(r, c, i, j) implies #[trigger] s[i][j]
            != s[r][c] by {
            if listed(order, idx + 1, i, j) {
                assert(clash_free(s, i, j));
                assert(peers(i, j, r, c));
            } else {
                assert(h[i][j] == g[i][j]);
            }
        }
        assert(clash_free(s, r, c));
        assert forall|i: int, j: int| on_board(i, j) && #[trigger] listed(
            blanks,
            idx,
            i,
            j,
        ) implies is_digit(s[i][j]) && clash_free(s, i, j) by {
            assert(listed(order, idx, i, j));
            if i != r || j != c {
                assert(listed(order, idx + 1, i, j));
            }
        }
        assert forall|i: int, j: int| on_board(i, j) && !#[trigger] listed(
            blanks,
            idx,
            i,
            j,
        ) implies s[i][j] == g[i][j] by {
            assert(!listed(order, idx, i, j));
            assert(!listed(order, idx + 1, i, j));
            assert(h[i][j] == g[i][j]);
        }
    } else {
        assert forall|i: int, j: int| on_board(i, j) implies !#[trigger] listed(
            blanks,
            idx,
            i,
            j,
        ) by {}
    }
}

/// Completeness of the search: where some grid fills the listed cells, the
/// search ends in one.
pub proof fn lemma_search_complete(
    g: Seq<Seq<char>>,
    blanks: Seq<(usize, usize)>,
    idx: int,
    s: Seq<Seq<char>>,
)
    requires
        shaped(g),
        pending(g, blanks, idx),
        fills(g, blanks, idx, s),
    ensures
        search(g, blanks, idx).is_some(),
    decreases blanks.len() - idx,
{
    if idx < blanks.len() {
        let order = swapped(blanks, idx, select(g, blanks, idx));
        lemma_order(g, blanks, idx);
        let r = order[idx].0 as int;
        let c = order[idx].1 as int;
        lemma_listed_next(g, order, idx);
        assert(listed(blanks, idx, r, c));
        let w = s[r][c] as int - '0' as int;
        assert(digit_char(w) == s[r][c]);
        let h = place(g, r, c, digit_char(w));
        lemma_pending_placed(g, order, idx, digit_char(w));
        lemma_candidate(g, r, c, w);
        assert forall|i: int, j: int|
            on_board(i, j) && (i == r || j == c || block_of(i, j) == block_of(
                r,
                c,
            )) implies #[trigger] g[i][j] != digit_char(w) by {
            if listed(order, idx, i, j) {
                let k = choose|k: int| is_at(order, idx, k, i, j);
                assert(g[i][j] == BLANK);
            } else {
                assert(!listed(blanks, idx, i, j));
                assert(peers(r, c, i, j));
                assert(clash_free(s, r, c));
            }
        }
        assert forall|i: int, j: int| on_board(i, j) && #[trigger] listed(
            order,
            idx + 1,
            i,
            j,
        ) implies is_digit(s[i][j]) && clash_free(s, i, j) by {
            assert(listed(order, idx, i, j));
            assert(listed(blanks, idx, i, j));
        }
        assert forall|i: int, j: int| on_board(i, j) && !#[trigger] listed(
            order,
            idx + 1,
            i,
            j,
        ) implies s[i][j] == h[i][j] by {
            if i != r || j != c {
                assert(!listed(order, idx, i, j));
                assert(!listed(blanks, idx, i, j));
            }
        }
        lemma_search_complete(h, order, idx + 1, s);
        lemma_try_reaches(g, order, idx, 1, w);
    }
}

/// Where trying the digits from `d` on ends in a grid, some candidate digit
/// `w` from `d` on is the one beneath which the search ended in it.
pub proof fn lemma_try_witness(
    g: Seq<Seq<char>>,
    order: Seq<(usize, usize)>,
    idx: int,
    d: int,
) -> (w: int)
    requires
        1 <= d,
        try_from(g, order, idx, d).is_some(),
    ensures
        idx < order.len(),
        d <= w <= 9,
        candidate(g, order[idx].0 as int, order[idx].1 as int, w),
        search(
            place(g, order[idx].0 as int, order[idx].1 as int, digit_char(w)),
            order,
            idx + 1,
        ) == try_from(g, order, idx, d),
    decreases 10 - d,
{
    let r = order[idx].0 as int;
    let c = order[idx].1 as int;
    if candidate(g, r, c, d) && search(place(g, r, c, digit_char(d)), order, idx + 1).is_some() {
        d
    } else {
        lemma_try_witness(g, order, idx, d + 1)
    }
}

/// Where the search beneath the candidate digit `w` ends in a grid, trying
/// the digits from any `d` up to `w` ends in one.
pub proof fn lemma_try_reaches(
    g: Seq<Seq<char>>,
    order: Seq<(usize, usize)>,
    idx: int,
    d: int,
    w: int,
)
    requires
        idx < order.len(),
        1 <= d <= w <= 9,
        candidate(g, order[idx].0 as int, order[idx].1 as int, w),
        search(
            place(g, order[idx].0 as int, order[idx].1 as int, digit_char(w)),
            order,
            idx + 1,
        ).is_some(),
    ensures
        try_from(g, order, idx, d).is_some(),
    decreases w - d,
{
    if d < w {
        lemma_try_reaches(g, order, idx, d + 1, w);
    }
}

/// The order in which the search takes the cells from `idx` on lists the same
/// cells, and they are still pending.
pub proof fn lemma_order(g: Seq<Seq<char>>, blanks: Seq<(usize, usize)>, idx: int)
    requires
        pending(g, blanks, idx),
        idx < blanks.len(),
    ensures
        pending(g, swapped(blanks, idx, select(g, blanks, idx)), idx),
        swapped(blanks, idx, select(g, blanks, idx)).len() == blanks.len(),
        forall|i: int, j: int|
            #[trigger] listed(swapped(blanks, idx, select(g, blanks, idx)), idx, i, j) <==> listed(
                blanks,
                idx,
                i,
                j,
            ),
{
    let at = select(g, blanks, idx);
    lemma_select_in_range(g, blanks, idx);
    lemma_pending_swapped(g, blanks, idx, at);
    assert forall|i: int, j: int| #[trigger]
        listed(swapped(blanks, idx, at), idx, i, j) <==> listed(blanks, idx, i, j) by {
        lemma_listed_swapped(blanks, idx, at, i, j);
    }
}

/// The cell at `idx` is none of those listed after it, and the cells listed
/// from `idx` on are that cell and those listed after it.
pub proof fn lemma_listed_next(g: Seq<Seq<char>>, order: Seq<(usize, usize)>, idx: int)
    requires
        pending(g, order, idx),
        idx < order.len(),
    ensures
        !listed(order, idx + 1, order[idx].0 as int, order[idx].1 as int),
        listed(order, idx, order[idx].0 as int, order[idx].1 as int),
        forall|i: int, j: int|
            on_board(i, j) ==> (#[trigger] listed(order, idx, i, j) <==> listed(
                order,
                idx + 1,
                i,
                j,
            ) || (i == order[idx].0 && j == order[idx].1)),
{
    let r = order[idx].0 as int;
    let c = order[idx].1 as int;
    if listed(order, idx + 1, r, c) {
        let k = choose|k: int| #[trigger] is_at(order, idx + 1, k, r, c);
        assert(order[k] == order[idx]);
    }
    assert forall|i: int, j: int| on_board(i, j) implies (#[trigger] listed(order, idx, i, j)
        <==> listed(order, idx + 1, i, j) || (i == order[idx].0 && j == order[idx].1)) by {
        lemma_listed_step(order, idx, i, j);
    }
    lemma_listed_step(order, idx, r, c);
}

/// The list of the blank cells among the first `k` cells names each of them
/// once, in row-major order, and nothing else.
pub proof fn lemma_blank_cells_before(g: Seq<Seq<char>>, k: int)
    requires
        shaped(g),
        0 <= k <= 81,
    ensures
        forall|n: int|
            0 <= n < blank_cells_before(g, k).len() ==> {
                let cell = #[trigger] blank_cells_before(g, k)[n];
                on_board(cell.0 as int, cell.1 as int) && rank(cell) < k
                    && g[cell.0 as int][cell.1 as int] == BLANK
            },
        forall|m: int, n: int|
            0 <= m < n < blank_cells_before(g, k).len() ==> rank(
                #[trigger] blank_cells_before(g, k)[m],
            ) < rank(#[trigger] blank_cells_before(g, k)[n]),
        forall|i: int, j: int|
            on_board(i, j) && i * 9 + j < k && g[i][j] == BLANK ==> #[trigger] listed(
                blank_cells_before(g, k),
                0,
                i,
                j,
            ),
    decreases k,
{
    if k > 0 {
        lemma_blank_cells_before(g, k - 1);
        let before = blank_cells_before(g, k - 1);
        let now = blank_cells_before(g, k);
        let r = (k - 1) / 9;
        let c = (k - 1) % 9;
        assert forall|i: int, j: int|
            on_board(i, j) && i * 9 + j < k && g[i][j] == BLANK implies #[trigger] listed(
            now,
            0,
            i,
            j,
        ) by {
            if i * 9 + j < k - 1 {
                assert(listed(before, 0, i, j));
                let n = choose|n: int| is_at(before, 0, n, i, j);
                assert(now[n] == before[n]);
                assert(is_at(now, 0, n, i, j));
            } else {
                assert(i == r && j == c);
                assert(now[now.len() - 1] == cell_at(k - 1));
                assert(is_at(now, 0, now.len() - 1, i, j));
            }
        }
    }
}

/// The list of blank cells names exactly the blank cells of the grid, each
/// once, in row-major order.
pub proof fn lemma_blank_cells(g: Seq<Seq<char>>)
    requires
        shaped(g),
    ensures
        pending(g, blank_cells(g), 0),
        forall|i: int, j: int|
            on_board(i, j) ==> (#[trigger] listed(blank_cells(g), 0, i, j) <==> g[i][j] == BLANK),
        forall|m: int, n: int|
            0 <= m < n < blank_cells(g).len() ==> rank(#[trigger] blank_cells(g)[m]) < rank(
                #[trigger] blank_cells(g)[n],
            ),
{
    lemma_blank_cells_before(g, 81);
    let blanks = blank_cells(g);
    assert forall|m: int, n: int| 0 <= m < n < blanks.len() implies blanks[m] != blanks[n] by {
        assert(rank(blanks[m]) < rank(blanks[n]));
    }
    assert forall|i: int, j: int|
        on_board(i, j) && #[trigger] listed(blanks, 0, i, j) implies g[i][j] == BLANK by {
        let n = choose|n: int| is_at(blanks, 0, n, i, j);
        assert(blanks[n].0 == i && blanks[n].1 == j);
    }
}

/// To complete a grid is to fill its blank cells.
pub proof fn lemma_completes(g: Seq<Seq<char>>, s: Seq<Seq<char>>)
    requires
        well_formed(g),
    ensures
        completes(g, s) <==> fills(g, blank_cells(g), 0, s),
{
    lemma_blank_cells(g);
    let blanks = blank_cells(g);
    if completes(g, s) {
        assert forall|i: int, j: int| on_board(i, j) && #[trigger] listed(
            blanks,
            0,
            i,
            j,
        ) implies is_digit(s[i][j]) && clash_free(s, i, j) by {}
        assert forall|i: int, j: int| on_board(i, j) && !#[trigger] listed(
            blanks,
            0,
            i,
            j,
        ) implies s[i][j] == g[i][j] by {}
    }
    if fills(g, blanks, 0, s) {
        assert forall|r: int, c: int| on_board(r, c) implies is_digit(#[trigger] s[r][c]) by {
            if !listed(blanks, 0, r, c) {
                assert(s[r][c] == g[r][c]);
            }
        }
        assert forall|r: int, c: int| on_board(r, c) && g[r][c] != BLANK implies #[trigger] s[r][c]
            == g[r][c] by {
            assert(!listed(blanks, 0, r, c));
        }
        assert forall|r: int, c: int|
            on_board(r, c) && g[r][c] == BLANK implies #[trigger] clash_free(s, r, c) by {
            assert(listed(blanks, 0, r, c));
        }
    }
}

} // verus!
