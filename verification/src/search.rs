//! The backtracking search.
//!
//! `search` is the mathematical definition of the search: which grid it ends
//! in, or that it ends in none. `solve_opt` is the executable search over bit
//! masks, proved to compute exactly that.

use vstd::prelude::*;
use crate::grid::{BLANK, block_of, candidate, digit_char, grid_of, on_board, place, shaped};
use crate::masks::{
    DIGIT_BITS, bit_count, free_bits, has_bit, lemma_free_bits, lemma_mark, lemma_set_then_clear,
    lemma_take_lowest, tracks,
};

verus! {

/// How many of the digits `1..=k` are candidates for the cell `(r, c)`.
pub open spec fn candidate_count(g: Seq<Seq<char>>, r: int, c: int, k: int) -> nat
    decreases k,
{
    if k <= 0 {
        0
    } else {
        candidate_count(g, r, c, k - 1) + if candidate(g, r, c, k) {
            1nat
        } else {
            0nat
        }
    }
}

/// How many digits may still be written at the cell.
pub open spec fn options(g: Seq<Seq<char>>, cell: (usize, usize)) -> nat {
    candidate_count(g, cell.0 as int, cell.1 as int, 9)
}

/// From `idx` on, the list names cells of the board that are blank, each once.
pub open spec fn pending(g: Seq<Seq<char>>, blanks: Seq<(usize, usize)>, idx: int) -> bool {
    &&& 0 <= idx <= blanks.len()
    &&& forall|k: int|
        idx <= k < blanks.len() ==> on_board((#[trigger] blanks[k]).0 as int, blanks[k].1 as int)
            && g[blanks[k].0 as int][blanks[k].1 as int] == BLANK
    &&& forall|k: int, l: int| idx <= k < l < blanks.len() ==> blanks[k] != blanks[l]
}

/// The list names the cell `(i, j)` at position `k`, which is `idx` or later.
pub open spec fn is_at(blanks: Seq<(usize, usize)>, idx: int, k: int, i: int, j: int) -> bool {
    idx <= k < blanks.len() && blanks[k].0 == i && blanks[k].1 == j
}

/// The cell `(i, j)` is one of those listed from `idx` on.
pub open spec fn listed(blanks: Seq<(usize, usize)>, idx: int, i: int, j: int) -> bool {
    exists|k: int| is_at(blanks, idx, k, i, j)
}

/// Among the cells listed from `idx` on, the one at `i` has the fewest options,
/// and it is the first such cell.
pub open spec fn first_fewest(
    g: Seq<Seq<char>>,
    blanks: Seq<(usize, usize)>,
    idx: int,
    i: int,
) -> bool {
    &&& idx <= i < blanks.len()
    &&& forall|k: int| idx <= k < i ==> options(g, #[trigger] blanks[k]) > options(g, blanks[i])
    &&& forall|k: int|
        i <= k < blanks.len() ==> options(g, #[trigger] blanks[k]) >= options(g, blanks[i])
}

/// The position of the cell that the search branches on next.
pub open spec fn select(g: Seq<Seq<char>>, blanks: Seq<(usize, usize)>, idx: int) -> int {
    choose|i: int| first_fewest(g, blanks, idx, i)
}

/// The list with the entries at `i` and `j` exchanged; the list itself where
/// one of the two is no position in it.
pub open spec fn swapped(blanks: Seq<(usize, usize)>, i: int, j: int) -> Seq<(usize, usize)> {
    if 0 <= i < blanks.len() && 0 <= j < blanks.len() {
        blanks.update(i, blanks[j]).update(j, blanks[i])
    } else {
        blanks
    }
}

/// The outcome of the search from depth `idx`: the completed grid, or `None`
/// where no digit fits some cell whatever is tried.
pub open spec fn search(
    g: Seq<Seq<char>>,
    blanks: Seq<(usize, usize)>,
    idx: int,
) -> Option<Seq<Seq<char>>>
    decreases blanks.len() - idx, 10int,
{
    if idx >= blanks.len() {
        Some(g)
    } else {
        let order = swapped(blanks, idx, select(g, blanks, idx));
        proof {
            assert(order.len() == blanks.len());
        }
        try_from(g, order, idx, 1)
    }
}

/// The outcome of trying the digits `d..=9`, in this order, at the cell
/// `order[idx]`: the first completed grid that the search beneath one of them
/// ends in.
pub open spec fn try_from(
    g: Seq<Seq<char>>,
    order: Seq<(usize, usize)>,
    idx: int,
    d: int,
) -> Option<Seq<Seq<char>>>
    decreases order.len() - idx, 10 - d,
{
    if idx >= order.len() || d < 1 || d > 9 {
        None
    } else {
        let r = order[idx].0 as int;
        let c = order[idx].1 as int;
        let below = if candidate(g, r, c, d) {
            search(place(g, r, c, digit_char(d)), order, idx + 1)
        } else {
            None
        };
        if below.is_some() {
            below
        } else {
            try_from(g, order, idx, d + 1)
        }
    }
}

/// The list of cells as the search from depth `idx` leaves it: in the order
/// in which it took the cells where it ends in a grid, and as it was where it
/// ends in none.
pub open spec fn order_after(
    g: Seq<Seq<char>>,
    blanks: Seq<(usize, usize)>,
    idx: int,
) -> Seq<(usize, usize)>
    decreases blanks.len() - idx, 10int,
{
    if idx >= blanks.len() || search(g, blanks, idx).is_none() {
        blanks
    } else {
        let order = swapped(blanks, idx, select(g, blanks, idx));
        proof {
            assert(order.len() == blanks.len());
        }
        order_from(g, order, idx, 1)
    }
}

/// The list of cells as trying the digits `d..=9` at the cell `order[idx]`
/// leaves it, where the search beneath one of them ends in a grid.
pub open spec fn order_from(
    g: Seq<Seq<char>>,
    order: Seq<(usize, usize)>,
    idx: int,
    d: int,
) -> Seq<(usize, usize)>
    decreases order.len() - idx, 10 - d,
{
    if idx >= order.len() || d < 1 || d > 9 {
        order
    } else {
        let r = order[idx].0 as int;
        let c = order[idx].1 as int;
        let h = place(g, r, c, digit_char(d));
        if candidate(g, r, c, d) && search(h, order, idx + 1).is_some() {
            order_after(h, order, idx + 1)
        } else {
            order_from(g, order, idx, d + 1)
        }
    }
}

/// Counts the digits whose bit is set in the mask.
fn count_bits(mask: u16) -> (n: u32)
    ensures
        n == bit_count(mask, 9),
{
    let mut n: u32 = 0;
    let mut d: u16 = 1;
    while d <= 9
        invariant
            1 <= d <= 10,
            n == bit_count(mask, d - 1),
            n < d,
        decreases 10 - d,
    {
        if mask & (1u16 << d) != 0 {
            n += 1;
        }
        d += 1;
    }
    n
}

/// The character of a digit.
fn char_of(d: u32) -> (ch: char)
    requires
        1 <= d <= 9,
    ensures
        ch == digit_char(d as int),
{
    (48u8 + d as u8) as char
}

/// Exchanges two entries of the list.
fn exchange(empties: &mut Vec<(usize, usize)>, i: usize, j: usize)
    requires
        i < old(empties).len(),
        j < old(empties).len(),
    ensures
        final(empties)@ == swapped(old(empties)@, i as int, j as int),
{
    let a = empties[i];
    let b = empties[j];
    empties[i] = b;
    empties[j] = a;
}

/// Finds, among the cells listed from `idx` on, the first one with the fewest
/// candidates. Returns its distance from `idx` and the mask of its candidates.
fn most_constrained(
    rows: &[u16; 9],
    cols: &[u16; 9],
    blocks: &[u16; 9],
    empties: &Vec<(usize, usize)>,
    idx: usize,
    Ghost(g): Ghost<Seq<Seq<char>>>,
) -> (best: (usize, u16))
    requires
        tracks(g, rows@, cols@, blocks@),
        pending(g, empties@, idx as int),
        idx < empties.len(),
    ensures
        idx + best.0 == select(g, empties@, idx as int),
        idx + best.0 < empties.len(),
        best.1 == free_bits(
            rows[empties[idx + best.0].0 as int],
            cols[empties[idx + best.0].1 as int],
            blocks[block_of(empties[idx + best.0].0 as int, empties[idx + best.0].1 as int)],
        ),
{
    let mut best_i: usize = 0;
    let mut best_mask: u16 = 0;
    let mut best_count: u32 = 0;
    let mut i: usize = idx;
    while i < empties.len()
        invariant
            tracks(g, rows@, cols@, blocks@),
            pending(g, empties@, idx as int),
            idx <= i <= empties.len(),
            i > idx ==> idx + best_i < i,
            i > idx ==> best_count == options(g, empties[idx + best_i]),
            i > idx ==> best_mask == free_bits(
                rows[empties[idx + best_i].0 as int],
                cols[empties[idx + best_i].1 as int],
                blocks[block_of(empties[idx + best_i].0 as int, empties[idx + best_i].1 as int)],
            ),
            i > idx ==> forall|k: int|
                idx <= k < idx + best_i ==> options(g, #[trigger] empties[k]) > best_count,
            i > idx ==> forall|k: int|
                idx + best_i <= k < i ==> options(g, #[trigger] empties[k]) >= best_count,
        decreases empties.len() - i,
    {
        let (r, c) = empties[i];
        let used: u16 = rows[r] | cols[c] | blocks[(r / 3) * 3 + c / 3];
        let mask: u16 = (!used) & DIGIT_BITS;
        let count = count_bits(mask);
        proof {
            lemma_free_bits(g, rows@, cols@, blocks@, r as int, c as int);
            lemma_count(g, r as int, c as int, mask, 9);
        }
        if i == idx || count < best_count {
            best_i = i - idx;
            best_mask = mask;
            best_count = count;
        }
        i += 1;
    }
    proof {
        lemma_select(g, empties@, idx as int, idx + best_i);
    }
    (best_i, best_mask)
}

/// Searches from depth `idx`: fills the cells listed from `idx` on, or finds
/// that they cannot be filled and leaves everything as it was.
pub fn solve_opt(
    board: &mut Vec<Vec<char>>,
    rows: &mut [u16; 9],
    cols: &mut [u16; 9],
    blocks: &mut [u16; 9],
    empties: &mut Vec<(usize, usize)>,
    idx: usize,
) -> (found: bool)
    requires
        shaped(grid_of(*old(board))),
        tracks(grid_of(*old(board)), old(rows)@, old(cols)@, old(blocks)@),
        pending(grid_of(*old(board)), old(empties)@, idx as int),
    ensures
        found == search(grid_of(*old(board)), old(empties)@, idx as int).is_some(),
        found ==> Some(grid_of(*final(board))) == search(
            grid_of(*old(board)),
            old(empties)@,
            idx as int,
        ),
        !found ==> grid_of(*final(board)) == grid_of(*old(board)) && final(rows)@ == old(rows)@
            && final(cols)@ == old(cols)@ && final(blocks)@ == old(blocks)@ && final(empties)@
            == old(empties)@,
        tracks(grid_of(*final(board)), final(rows)@, final(cols)@, final(blocks)@),
        final(empties)@ == order_after(grid_of(*old(board)), old(empties)@, idx as int),
        final(empties).len() == old(empties).len(),
        forall|k: int| 0 <= k < idx ==> final(empties)@[k] == old(empties)@[k],
        forall|i: int, j: int| #[trigger]
            listed(final(empties)@, idx as int, i, j) <==> listed(old(empties)@, idx as int, i, j),
    decreases old(empties).len() - idx,
{
    if idx == empties.len() {
        return true;
    }
    let ghost g = grid_of(*board);
    let ghost blanks = empties@;
    let ghost rows0 = rows@;
    let ghost cols0 = cols@;
    let ghost blocks0 = blocks@;

    let (best_i, best_mask) = most_constrained(rows, cols, blocks, empties, idx, Ghost(g));
    exchange(empties, idx, idx + best_i);
    let ghost order = empties@;
    let (r, c) = empties[idx];
    let b: usize = (r / 3) * 3 + c / 3;
    let mut mask: u16 = best_mask;
    let ghost mut next: int = 1;
    proof {
        lemma_free_bits(g, rows0, cols0, blocks0, r as int, c as int);
        lemma_pending_swapped(g, blanks, idx as int, idx + best_i);
    }

    while mask != 0
        invariant
            grid_of(*board) == g,
            g == grid_of(*old(board)),
            blanks == old(empties)@,
            shaped(g),
            rows@ == rows0,
            cols@ == cols0,
            blocks@ == blocks0,
            empties@ == order,
            empties.len() == old(empties).len(),
            idx < empties.len(),
            tracks(g, rows0, cols0, blocks0),
            pending(g, order, idx as int),
            idx < order.len(),
            order[idx as int] == (r, c),
            order == swapped(blanks, idx as int, idx + best_i),
            idx + best_i < blanks.len(),
            b == block_of(r as int, c as int),
            search(g, blanks, idx as int) == try_from(g, order, idx as int, next),
            search(g, blanks, idx as int).is_some() ==> order_after(g, blanks, idx as int)
                == order_from(g, order, idx as int, next),
            1 <= next <= 10,
            mask & !DIGIT_BITS == 0,
            forall|d: int|
                1 <= d <= 9 ==> (#[trigger] has_bit(mask, d) <==> d >= next && candidate(
                    g,
                    r as int,
                    c as int,
                    d,
                )),
        decreases mask,
    {
        proof {
            lemma_take_lowest(mask);
        }
        let ghost before = mask;
        let bit: u16 = mask & (!mask + 1);
        mask = mask & (mask - 1);
        let num: u32 = bit.trailing_zeros();
        proof {
            assert(has_bit(before, num as int));
            assert forall|k: int| next <= k < num implies !#[trigger] candidate(
                g,
                r as int,
                c as int,
                k,
            ) by {
                assert(!has_bit(before, k));
            }
            lemma_skip(g, order, idx as int, next, num as int);
            lemma_mark(g, rows0, cols0, blocks0, r as int, c as int, num as int);
            lemma_free_bits(g, rows0, cols0, blocks0, r as int, c as int);
            lemma_set_then_clear(rows0[r as int], num as int);
            lemma_set_then_clear(cols0[c as int], num as int);
            lemma_set_then_clear(blocks0[b as int], num as int);
        }

        board[r][c] = char_of(num);
        rows[r] |= bit;
        cols[c] |= bit;
        blocks[b] |= bit;

        let ghost h = place(g, r as int, c as int, digit_char(num as int));
        proof {
            assert(grid_of(*board) =~= h);
            lemma_pending_placed(g, order, idx as int, digit_char(num as int));
            assert(order_from(g, order, idx as int, num as int) == if search(
                h,
                order,
                idx + 1,
            ).is_some() {
                order_after(h, order, idx + 1)
            } else {
                order_from(g, order, idx as int, num + 1)
            });
            assert(try_from(g, order, idx as int, num as int) == if search(
                h,
                order,
                idx + 1,
            ).is_some() {
                search(h, order, idx + 1)
            } else {
                try_from(g, order, idx as int, num + 1)
            });
        }

        if solve_opt(board, rows, cols, blocks, empties, idx + 1) {
            proof {
                assert forall|i: int, j: int| #[trigger]
                    listed(empties@, idx as int, i, j) <==> listed(blanks, idx as int, i, j) by {
                    lemma_listed_step(empties@, idx as int, i, j);
                    lemma_listed_step(order, idx as int, i, j);
                    lemma_listed_swapped(blanks, idx as int, idx + best_i, i, j);
                }
            }
            return true;
        }
        let ghost mid = *board;
        proof {
            assert(grid_of(mid)[r as int] == mid[r as int]@);
        }
        board[r][c] = BLANK;
        rows[r] &= !bit;
        cols[c] &= !bit;
        blocks[b] &= !bit;

        proof {
            assert(h[r as int].update(c as int, BLANK) =~= g[r as int]);
            assert forall|i: int| 0 <= i < 9 implies grid_of(*board)[i] == g[i] by {
                assert(grid_of(mid)[i] == mid[i]@);
                if i != r {
                    assert(board[i] == mid[i]);
                }
            }
            assert(grid_of(*board) =~= g);
            assert(rows@ =~= rows0);
            assert(cols@ =~= cols0);
            assert(blocks@ =~= blocks0);
            next = num + 1;
        }
    }
    proof {
        assert forall|k: int| next <= k < 10 implies !#[trigger] candidate(
            g,
            r as int,
            c as int,
            k,
        ) by {
            assert(!has_bit(mask, k)) by {
                assert(0u16 & (1u16 << (k as u16)) == 0) by (bit_vector);
            }
        }
        lemma_skip(g, order, idx as int, next, 10);
    }
    exchange(empties, idx, idx + best_i);
    proof {
        assert(empties@ =~= blanks);
    }
    false
}

/// Among the cells listed from `idx` up to `end`, there is a first one with
/// the fewest options.
pub proof fn lemma_fewest(
    g: Seq<Seq<char>>,
    blanks: Seq<(usize, usize)>,
    idx: int,
    end: int,
) -> (at: int)
    requires
        0 <= idx < end <= blanks.len(),
    ensures
        idx <= at < end,
        forall|k: int|
            idx <= k < at ==> options(g, #[trigger] blanks[k])
                > options(g, blanks[at]),
        forall|k: int|
            at <= k < end ==> options(g, #[trigger] blanks[k])
                >= options(g, blanks[at]),
        end == blanks.len() ==> first_fewest(g, blanks, idx, at),
    decreases end - idx,
{
    if end == idx + 1 {
        idx
    } else {
        let before = lemma_fewest(g, blanks, idx, end - 1);
        if options(g, blanks[end - 1]) < options(g, blanks[before]) {
            end - 1
        } else {
            before
        }
    }
}

/// The cell that the search branches on is one of those listed from `idx` on.
pub proof fn lemma_select_in_range(g: Seq<Seq<char>>, blanks: Seq<(usize, usize)>, idx: int)
    requires
        0 <= idx < blanks.len(),
    ensures
        idx <= select(g, blanks, idx) < blanks.len(),
{
    let at = lemma_fewest(g, blanks, idx, blanks.len() as int);
}

/// The first position from `idx` on with the fewest options is the only one.
pub proof fn lemma_select(g: Seq<Seq<char>>, blanks: Seq<(usize, usize)>, idx: int, i: int)
    requires
        first_fewest(g, blanks, idx, i),
    ensures
        select(g, blanks, idx) == i,
{
    let j = select(g, blanks, idx);
    assert(first_fewest(g, blanks, idx, j));
    if j < i {
        assert(options(g, blanks[j]) > options(g, blanks[i]));
        assert(options(g, blanks[i]) >= options(g, blanks[j]));
    }
    if i < j {
        assert(options(g, blanks[i]) > options(g, blanks[j]));
        assert(options(g, blanks[j]) >= options(g, blanks[i]));
    }
}

/// A mask whose bits are the candidates of a cell has as many bits as the
/// cell has candidates.
pub proof fn lemma_count(g: Seq<Seq<char>>, r: int, c: int, m: u16, k: int)
    requires
        0 <= k <= 9,
        forall|d: int| 1 <= d <= 9 ==> (#[trigger] has_bit(m, d) <==> candidate(g, r, c, d)),
    ensures
        bit_count(m, k) == candidate_count(g, r, c, k),
    decreases k,
{
    if k > 0 {
        lemma_count(g, r, c, m, k - 1);
        assert(has_bit(m, k) <==> candidate(g, r, c, k));
    }
}

/// Where none of the digits `d..e` is a candidate, trying from `d` is trying
/// from `e`, and leaves the list as trying from `e` does.
pub proof fn lemma_skip(g: Seq<Seq<char>>, order: Seq<(usize, usize)>, idx: int, d: int, e: int)
    requires
        idx < order.len(),
        1 <= d <= e <= 10,
        forall|k: int|
            d <= k < e ==> !#[trigger] candidate(
                g,
                order[idx].0 as int,
                order[idx].1 as int,
                k,
            ),
    ensures
        try_from(g, order, idx, d) == try_from(g, order, idx, e),
        order_from(g, order, idx, d) == order_from(g, order, idx, e),
    decreases e - d,
{
    if d < e {
        assert(!candidate(g, order[idx].0 as int, order[idx].1 as int, d));
        lemma_skip(g, order, idx, d + 1, e);
    }
}

/// Exchanging two of the pending cells leaves the cells pending.
pub proof fn lemma_pending_swapped(
    g: Seq<Seq<char>>,
    blanks: Seq<(usize, usize)>,
    idx: int,
    i: int,
)
    requires
        pending(g, blanks, idx),
        idx <= i < blanks.len(),
    ensures
        pending(g, swapped(blanks, idx, i), idx),
{
    let order = swapped(blanks, idx, i);
    assert forall|k: int| idx <= k < order.len() implies on_board(
        (#[trigger] order[k]).0 as int,
        order[k].1 as int,
    ) && g[order[k].0 as int][order[k].1 as int] == BLANK by {
        let from = if k == idx {
            i
        } else if k == i {
            idx
        } else {
            k
        };
        assert(order[k] == blanks[from]);
    }
    assert forall|k: int, l: int| idx <= k < l < order.len() implies order[k] != order[l] by {
        let fk = if k == idx {
            i
        } else if k == i {
            idx
        } else {
            k
        };
        let fl = if l == idx {
            i
        } else if l == i {
            idx
        } else {
            l
        };
        assert(order[k] == blanks[fk]);
        assert(order[l] == blanks[fl]);
    }
}

/// Once the cell at `idx` holds a digit, the cells listed after it are still
/// pending.
pub proof fn lemma_pending_placed(
    g: Seq<Seq<char>>,
    order: Seq<(usize, usize)>,
    idx: int,
    ch: char,
)
    requires
        shaped(g),
        pending(g, order, idx),
        idx < order.len(),
    ensures
        shaped(place(g, order[idx].0 as int, order[idx].1 as int, ch)),
        pending(place(g, order[idx].0 as int, order[idx].1 as int, ch), order, idx + 1),
{
    let r = order[idx].0 as int;
    let c = order[idx].1 as int;
    let h = place(g, r, c, ch);
    assert(on_board(r, c));
    assert forall|k: int| idx + 1 <= k < order.len() implies on_board(
        (#[trigger] order[k]).0 as int,
        order[k].1 as int,
    ) && h[order[k].0 as int][order[k].1 as int] == BLANK by {
        assert(order[k] != order[idx]);
    }
}

/// The cells listed from `idx` on are the cell at `idx` and those listed after
/// it.
pub proof fn lemma_listed_step(order: Seq<(usize, usize)>, idx: int, i: int, j: int)
    requires
        0 <= idx < order.len(),
    ensures
        listed(order, idx, i, j) <==> listed(order, idx + 1, i, j) || (order[idx].0 == i
            && order[idx].1 == j),
{
    if listed(order, idx, i, j) {
        let k = choose|k: int| is_at(order, idx, k, i, j);
        if k > idx {
            assert(is_at(order, idx + 1, k, i, j));
        }
    }
    if listed(order, idx + 1, i, j) {
        let k = choose|k: int| #[trigger] is_at(order, idx + 1, k, i, j);
        assert(is_at(order, idx, k, i, j));
    }
    if order[idx].0 == i && order[idx].1 == j {
        assert(is_at(order, idx, idx, i, j));
    }
}

/// Exchanging two of the listed cells does not change which cells are listed.
pub proof fn lemma_listed_swapped(blanks: Seq<(usize, usize)>, idx: int, at: int, i: int, j: int)
    requires
        0 <= idx <= at < blanks.len(),
    ensures
        listed(swapped(blanks, idx, at), idx, i, j) <==> listed(blanks, idx, i, j),
{
    let order = swapped(blanks, idx, at);
    if listed(blanks, idx, i, j) {
        let k = choose|k: int| is_at(blanks, idx, k, i, j);
        let to = if k == idx {
            at
        } else if k == at {
            idx
        } else {
            k
        };
        assert(is_at(order, idx, to, i, j));
    }
    if listed(order, idx, i, j) {
        let k = choose|k: int| is_at(order, idx, k, i, j);
        let from = if k == idx {
            at
        } else if k == at {
            idx
        } else {
            k
        };
        assert(is_at(blanks, idx, from, i, j));
    }
}

} // verus!
