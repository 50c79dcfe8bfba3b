//! Bit sets of digits.
//!
//! For every row, column and block the solver keeps a 16-bit mask in which
//! bit `d` is set exactly when the digit `d` stands somewhere in that unit.
//! This module states that correspondence and proves the bit arithmetic the
//! search relies on.

use vstd::prelude::*;
use vstd::std_specs::bits::{axiom_u16_trailing_zeros, u16_trailing_zeros};
use crate::grid::{
    BLANK, block_of, candidate, digit_char, in_block, in_col, in_row, lemma_digit_char, on_board,
    place, shaped,
};

verus! {

/// The bits of the nine digits: bits 1 to 9.
pub const DIGIT_BITS: u16 = 0x3FE;

/// Bit `d` of the mask is set.
pub open spec fn has_bit(m: u16, d: int) -> bool {
    m & (1u16 << (d as u16)) != 0
}

/// The mask holds no bit but those of digits.
pub open spec fn digits_only(m: u16) -> bool {
    m & !DIGIT_BITS == 0
}

/// The masks record exactly the digits that stand in each row, column and
/// block, and nothing else.
pub open spec fn tracks(
    g: Seq<Seq<char>>,
    rows: Seq<u16>,
    cols: Seq<u16>,
    blocks: Seq<u16>,
) -> bool {
    &&& rows.len() == 9
    &&& cols.len() == 9
    &&& blocks.len() == 9
    &&& forall|u: int| 0 <= u < 9 ==> #[trigger] digits_only(rows[u])
    &&& forall|u: int| 0 <= u < 9 ==> #[trigger] digits_only(cols[u])
    &&& forall|u: int| 0 <= u < 9 ==> #[trigger] digits_only(blocks[u])
    &&& forall|u: int, d: int|
        0 <= u < 9 && 1 <= d <= 9 ==> (#[trigger] has_bit(rows[u], d) <==> in_row(
            g,
            u,
            digit_char(d),
        ))
    &&& forall|u: int, d: int|
        0 <= u < 9 && 1 <= d <= 9 ==> (#[trigger] has_bit(cols[u], d) <==> in_col(
            g,
            u,
            digit_char(d),
        ))
    &&& forall|u: int, d: int|
        0 <= u < 9 && 1 <= d <= 9 ==> (#[trigger] has_bit(blocks[u], d) <==> in_block(
            g,
            u,
            digit_char(d),
        ))
}

/// The digits that none of the three masks holds.
pub open spec fn free_bits(row: u16, col: u16, block: u16) -> u16 {
    !(row | col | block) & DIGIT_BITS
}

/// How many of the digits `1..=k` have their bit set in the mask.
pub open spec fn bit_count(m: u16, k: int) -> nat
    decreases k,
{
    if k <= 0 {
        0
    } else {
        bit_count(m, k - 1) + if has_bit(m, k) {
            1nat
        } else {
            0nat
        }
    }
}

/// A digit's bit is set in the free mask exactly when none of the three masks
/// holds it.
proof fn lemma_free_bit(a: u16, b: u16, c: u16, e: u16)
    by (bit_vector)
    requires
        1 <= e <= 9,
    ensures
        ((!(a | b | c) & 0x3FEu16) & (1u16 << e) != 0) <==> (a & (1u16 << e) == 0 && b & (1u16
            << e) == 0 && c & (1u16 << e) == 0),
{
}

/// Setting the bit of one digit changes the bit of no other digit.
proof fn lemma_set_bit(m: u16, d: u16, e: u16)
    by (bit_vector)
    requires
        1 <= d <= 9,
        1 <= e <= 9,
    ensures
        ((m | (1u16 << d)) & (1u16 << e) != 0) <==> (m & (1u16 << e) != 0 || e == d),
        m & !0x3FEu16 == 0 ==> (m | (1u16 << d)) & !0x3FEu16 == 0,
{
}

/// Clearing a bit that was set into a mask which did not hold it gives back
/// the mask.
proof fn lemma_clear_bit(m: u16, d: u16)
    by (bit_vector)
    requires
        m & (1u16 << d) == 0,
    ensures
        (m | (1u16 << d)) & !(1u16 << d) == m,
{
}

/// The lowest set bit of a mask of digits stands at the place `t` of a digit;
/// below it no bit is set, and without it the other bits are as they were.
proof fn lemma_lowest_bit(m: u16, t: u16, e: u16)
    by (bit_vector)
    requires
        m != 0,
        m & !0x3FEu16 == 0,
        t < 16,
        ((m & ((!m + 1) as u16)) >> t) & 1 == 1,
    ensures
        !m < 0xFFFF,
        m >= 1,
        1 <= t <= 9,
        m & ((!m + 1) as u16) == 1u16 << t,
        m & (1u16 << t) != 0,
        m & ((m - 1) as u16) == m & !(1u16 << t),
        (m & ((m - 1) as u16)) & !0x3FEu16 == 0,
        m & ((m - 1) as u16) < m,
        e < t ==> m & (1u16 << e) == 0,
        1 <= e <= 9 ==> (((m & ((m - 1) as u16)) & (1u16 << e) != 0) <==> (m & (1u16 << e) != 0
            && e != t)),
{
}

/// A bit of the free mask is set exactly when the digit is a candidate.
pub proof fn lemma_free_bits(
    g: Seq<Seq<char>>,
    rows: Seq<u16>,
    cols: Seq<u16>,
    blocks: Seq<u16>,
    r: int,
    c: int,
)
    requires
        tracks(g, rows, cols, blocks),
        on_board(r, c),
    ensures
        free_bits(rows[r], cols[c], blocks[block_of(r, c)]) & !DIGIT_BITS == 0,
        forall|d: int|
            1 <= d <= 9 ==> (#[trigger] has_bit(
                free_bits(rows[r], cols[c], blocks[block_of(r, c)]),
                d,
            ) <==> candidate(g, r, c, d)),
{
    let b = block_of(r, c);
    let (x, y, z) = (rows[r], cols[c], blocks[b]);
    assert((!(x | y | z) & 0x3FEu16) & !0x3FEu16 == 0) by (bit_vector);
    assert forall|d: int| 1 <= d <= 9 implies (#[trigger] has_bit(free_bits(x, y, z), d)
        <==> candidate(g, r, c, d)) by {
        lemma_free_bit(x, y, z, d as u16);
        assert(has_bit(rows[r], d) <==> in_row(g, r, digit_char(d)));
        assert(has_bit(cols[c], d) <==> in_col(g, c, digit_char(d)));
        assert(has_bit(blocks[b], d) <==> in_block(g, b, digit_char(d)));
    }
}

/// The lowest set bit of a mask of digits, and what is left without it.
pub proof fn lemma_take_lowest(m: u16)
    requires
        m != 0,
        m & !DIGIT_BITS == 0,
    ensures
        m >= 1,
        !m < 0xFFFF,
        1 <= u16_trailing_zeros(m & ((!m + 1) as u16)) <= 9,
        m & ((!m + 1) as u16) == 1u16 << (u16_trailing_zeros(m & ((!m + 1) as u16)) as u16),
        has_bit(m, u16_trailing_zeros(m & ((!m + 1) as u16)) as int),
        (m & ((m - 1) as u16)) & !DIGIT_BITS == 0,
        m & ((m - 1) as u16) < m,
        forall|e: int|
            1 <= e < u16_trailing_zeros(m & ((!m + 1) as u16)) ==> !#[trigger] has_bit(m, e),
        forall|e: int|
            1 <= e <= 9 ==> (#[trigger] has_bit(m & ((m - 1) as u16), e) <==> has_bit(m, e) && e
                != u16_trailing_zeros(m & ((!m + 1) as u16))),
{
    let low = m & ((!m + 1) as u16);
    assert(low != 0) by (bit_vector)
        requires
            m != 0,
            low == m & ((!m + 1) as u16),
    ;
    axiom_u16_trailing_zeros(low);
    let t = u16_trailing_zeros(low) as u16;
    lemma_lowest_bit(m, t, 0);
    assert forall|e: int| 1 <= e < t implies !#[trigger] has_bit(m, e) by {
        lemma_lowest_bit(m, t, e as u16);
    }
    assert forall|e: int| 1 <= e <= 9 implies (#[trigger] has_bit(m & ((m - 1) as u16), e)
        <==> has_bit(m, e) && e != t) by {
        lemma_lowest_bit(m, t, e as u16);
    }
}

/// Setting the bit of a digit and clearing it again gives back the mask, where
/// the bit was not set before.
pub proof fn lemma_set_then_clear(m: u16, d: int)
    requires
        1 <= d <= 9,
        !has_bit(m, d),
    ensures
        (m | (1u16 << (d as u16))) & !(1u16 << (d as u16)) == m,
{
    lemma_clear_bit(m, d as u16);
}

/// Writing a digit into a blank cell and setting its bit in the three masks of
/// that cell keeps the masks in step with the grid.
pub proof fn lemma_mark(
    g: Seq<Seq<char>>,
    rows: Seq<u16>,
    cols: Seq<u16>,
    blocks: Seq<u16>,
    r: int,
    c: int,
    d: int,
)
    requires
        shaped(g),
        tracks(g, rows, cols, blocks),
        on_board(r, c),
        g[r][c] == BLANK,
        1 <= d <= 9,
    ensures
        tracks(
            place(g, r, c, digit_char(d)),
            rows.update(r, rows[r] | (1u16 << (d as u16))),
            cols.update(c, cols[c] | (1u16 << (d as u16))),
            blocks.update(block_of(r, c), blocks[block_of(r, c)] | (1u16 << (d as u16))),
        ),
{
    let bit = 1u16 << (d as u16);
    let b = block_of(r, c);
    let h = place(g, r, c, digit_char(d));
    let rows2 = rows.update(r, rows[r] | bit);
    let cols2 = cols.update(c, cols[c] | bit);
    let blocks2 = blocks.update(b, blocks[b] | bit);
    assert forall|i: int, j: int| on_board(i, j) implies #[trigger] h[i][j] == (if i == r && j
        == c {
        digit_char(d)
    } else {
        g[i][j]
    }) by {}
    assert forall|u: int| 0 <= u < 9 implies #[trigger] digits_only(rows2[u]) by {
        lemma_set_bit(rows[r], d as u16, d as u16);
        assert(digits_only(rows[u]));
    }
    assert forall|u: int| 0 <= u < 9 implies #[trigger] digits_only(cols2[u]) by {
        lemma_set_bit(cols[c], d as u16, d as u16);
        assert(digits_only(cols[u]));
    }
    assert forall|u: int| 0 <= u < 9 implies #[trigger] digits_only(blocks2[u]) by {
        lemma_set_bit(blocks[b], d as u16, d as u16);
        assert(digits_only(blocks[u]));
    }
    assert forall|u: int, e: int| 0 <= u < 9 && 1 <= e <= 9 implies (#[trigger] has_bit(
        rows2[u],
        e,
    ) <==> in_row(h, u, digit_char(e))) by {
        lemma_digit_char(d, e);
        lemma_set_bit(rows[r], d as u16, e as u16);
        assert(has_bit(rows[u], e) <==> in_row(g, u, digit_char(e)));
        if in_row(g, u, digit_char(e)) {
            let j = choose|j: int| 0 <= j < 9 && #[trigger] g[u][j] == digit_char(e);
            assert(h[u][j] == digit_char(e));
        }
        if in_row(h, u, digit_char(e)) {
            let j = choose|j: int| 0 <= j < 9 && #[trigger] h[u][j] == digit_char(e);
            if !(u == r && j == c) {
                assert(g[u][j] == digit_char(e));
            }
        }
        if u == r && e == d {
            assert(h[r][c] == digit_char(e));
        }
    }
    assert forall|u: int, e: int| 0 <= u < 9 && 1 <= e <= 9 implies (#[trigger] has_bit(
        cols2[u],
        e,
    ) <==> in_col(h, u, digit_char(e))) by {
        lemma_digit_char(d, e);
        lemma_set_bit(cols[c], d as u16, e as u16);
        assert(has_bit(cols[u], e) <==> in_col(g, u, digit_char(e)));
        if in_col(g, u, digit_char(e)) {
            let i = choose|i: int| 0 <= i < 9 && #[trigger] g[i][u] == digit_char(e);
            assert(h[i][u] == digit_char(e));
        }
        if in_col(h, u, digit_char(e)) {
            let i = choose|i: int| 0 <= i < 9 && #[trigger] h[i][u] == digit_char(e);
            if !(i == r && u == c) {
                assert(g[i][u] == digit_char(e));
            }
        }
        if u == c && e == d {
            assert(h[r][c] == digit_char(e));
        }
    }
    assert forall|u: int, e: int| 0 <= u < 9 && 1 <= e <= 9 implies (#[trigger] has_bit(
        blocks2[u],
        e,
    ) <==> in_block(h, u, digit_char(e))) by {
        lemma_digit_char(d, e);
        lemma_set_bit(blocks[b], d as u16, e as u16);
        assert(has_bit(blocks[u], e) <==> in_block(g, u, digit_char(e)));
        if in_block(g, u, digit_char(e)) {
            let (i, j) = choose|i: int, j: int|
                on_board(i, j) && block_of(i, j) == u && #[trigger] g[i][j] == digit_char(e);
            assert(h[i][j] == digit_char(e));
        }
        if in_block(h, u, digit_char(e)) {
            let (i, j) = choose|i: int, j: int|
                on_board(i, j) && block_of(i, j) == u && #[trigger] h[i][j] == digit_char(e);
            if !(i == r && j == c) {
                assert(g[i][j] == digit_char(e));
            }
        }
        if u == b && e == d {
            assert(h[r][c] == digit_char(e));
        }
    }
}

} // verus!
