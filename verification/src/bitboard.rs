//! Bit-parallel representation of a Connect Four board.
//!
//! The 7x6 board is packed into a 64-bit word, column-major, seven bits per
//! column: bit `7*c + r` holds the cell at row `r` (row 0 is the bottom) of
//! column `c`. The top bit of each column (`7*c + 6`) is a sentinel that
//! stays zero, as do bits 49..63. The sentinel row keeps horizontal and
//! diagonal shifts from wrapping between columns, and makes the sum of the
//! two masks of a position a unique key.

use vstd::prelude::*;

verus! {

/// All playing-field bits: seven columns of six rows, sentinel row cleared.
pub const BOARD_MASK: u64 = 0b0111111_0111111_0111111_0111111_0111111_0111111_0111111u64;

/// One bit at the bottom cell (row 0) of each column.
pub const BOTTOM_ROW: u64 = 0b0000001_0000001_0000001_0000001_0000001_0000001_0000001u64;

/// Bit `i` of `w` is set.
pub open spec fn bit_set(w: u64, i: u64) -> bool {
    (w >> i) & 1 == 1
}

/// `i` is the index of a playing-field cell: below the sentinel row of a
/// real column.
pub open spec fn in_field(i: u64) -> bool {
    i < 49 && i % 7 < 6
}

/// No bit outside the playing field is set.
pub open spec fn valid_mask(w: u64) -> bool {
    w & !BOARD_MASK == 0
}

/// Every column is filled from the bottom up, so each column holds a value
/// of the form 2^h - 1. Adding one stone at the bottom of each column then
/// clears every column.
pub open spec fn columns_contiguous(w: u64) -> bool {
    w & ((w + BOTTOM_ROW) as u64) == 0
}

/// The four line directions, as strides between cell indices: 1 vertical,
/// 7 horizontal, 8 rising diagonal, 6 falling diagonal.
pub open spec fn is_stride(d: u64) -> bool {
    d == 1 || d == 6 || d == 7 || d == 8
}

/// Four aligned cells starting at `s` with stride `d` all lie on the
/// playing field. Because the sentinel row breaks every line that would
/// cross a column edge, this also forces the four cells onto one line of
/// the board.
pub open spec fn window_in_field(s: u64, d: u64) -> bool {
    in_field(s) && in_field((s + d) as u64) && in_field((s + 2 * d) as u64) && in_field(
        (s + 3 * d) as u64,
    )
}

/// `w` holds a stone on each of the four aligned cells starting at `s` with
/// stride `d`.
pub open spec fn window_filled(w: u64, s: u64, d: u64) -> bool {
    window_in_field(s, d) && bit_set(w, s) && bit_set(w, (s + d) as u64) && bit_set(
        w,
        (s + 2 * d) as u64,
    ) && bit_set(w, (s + 3 * d) as u64)
}

/// `w` holds four in a row, in any of the four directions.
pub open spec fn has_four(w: u64) -> bool {
    exists|s: u64, d: u64| is_stride(d) && window_filled(w, s, d)
}

/// The word whose bit `i` tells whether `w` has stones at both `i` and
/// `i + d`.
pub open spec fn pair_word(w: u64, d: u64) -> u64 {
    w & (w >> d)
}

/// The word whose bit `i` tells whether `w` has stones at `i`, `i + d`,
/// `i + 2d` and `i + 3d`.
pub open spec fn quad_word(w: u64, d: u64) -> u64 {
    pair_word(w, d) & (pair_word(w, d) >> ((2 * d) as u64))
}

/// A set bit of a valid mask lies on the playing field.
proof fn lemma_valid_bit_in_field(w: u64, i: u64)
    by (bit_vector)
    requires
        valid_mask(w),
        bit_set(w, i),
    ensures
        in_field(i),
{
}

/// Every nonzero word has a set bit; the lowest one is a witness.
pub proof fn lemma_nonzero_has_bit(x: u64)
    requires
        x != 0,
    ensures
        exists|i: u64| i < 64 && bit_set(x, i),
{
    vstd::std_specs::bits::axiom_u64_trailing_zeros(x);
    let tz = vstd::std_specs::bits::u64_trailing_zeros(x) as u64;
    assert(tz < 64 && bit_set(x, tz));
}

/// A word with a set bit is nonzero.
pub proof fn lemma_nonzero_from_bit(x: u64, i: u64)
    by (bit_vector)
    requires
        bit_set(x, i),
    ensures
        x != 0,
{
}

/// Reading a set bit of the quad word back as four set bits of `w`.
proof fn lemma_quad_word_bit(w: u64, d: u64, i: u64)
    by (bit_vector)
    requires
        1 <= d <= 8,
        i < 64,
        bit_set(quad_word(w, d), i),
    ensures
        i + 3 * d < 64,
        bit_set(w, i),
        bit_set(w, (i + d) as u64),
        bit_set(w, (i + 2 * d) as u64),
        bit_set(w, (i + 3 * d) as u64),
{
}

/// Four set bits of `w` at stride `d` set a bit of the quad word.
proof fn lemma_quad_word_nonzero(w: u64, d: u64, s: u64)
    by (bit_vector)
    requires
        1 <= d <= 8,
        s + 3 * d < 64,
        bit_set(w, s),
        bit_set(w, (s + d) as u64),
        bit_set(w, (s + 2 * d) as u64),
        bit_set(w, (s + 3 * d) as u64),
    ensures
        quad_word(w, d) != 0,
{
}

/// The quad word of a valid mask is nonzero exactly when the mask holds
/// four in a row at that stride.
proof fn lemma_quad_word_characterizes(w: u64, d: u64)
    requires
        valid_mask(w),
        is_stride(d),
    ensures
        quad_word(w, d) != 0 <==> exists|s: u64| window_filled(w, s, d),
{
    if quad_word(w, d) != 0 {
        lemma_nonzero_has_bit(quad_word(w, d));
        let i = choose|i: u64| i < 64 && bit_set(quad_word(w, d), i);
        lemma_quad_word_bit(w, d, i);
        lemma_valid_bit_in_field(w, i);
        lemma_valid_bit_in_field(w, (i + d) as u64);
        lemma_valid_bit_in_field(w, (i + 2 * d) as u64);
        lemma_valid_bit_in_field(w, (i + 3 * d) as u64);
        assert(window_filled(w, i, d));
    }
    if exists|s: u64| window_filled(w, s, d) {
        let s = choose|s: u64| window_filled(w, s, d);
        assert(in_field((s + 3 * d) as u64));
        assert(s + 3 * d < 64);
        lemma_quad_word_nonzero(w, d, s);
    }
}

/// `w` holds a stone on the four aligned cells starting at `s` with
/// stride `d`, except possibly on the `k`-th of them.
pub open spec fn filled_except(w: u64, s: u64, d: u64, k: u64) -> bool {
    &&& (k != 0 ==> bit_set(w, s))
    &&& (k != 1 ==> bit_set(w, (s + d) as u64))
    &&& (k != 2 ==> bit_set(w, (s + 2 * d) as u64))
    &&& (k != 3 ==> bit_set(w, (s + 3 * d) as u64))
}

/// Placing one stone of this player on cell `i` would complete four in a
/// row. A vertical line counts only when completed from above, since its
/// three lower cells must already hold stones for a stone ever to land on
/// `i`.
pub open spec fn is_winning_cell(w: u64, i: u64) -> bool {
    exists|s: u64, d: u64, k: u64|
        is_stride(d) && k < 4 && (d == 1 ==> k == 3) && i == (s + k * d) as u64 && window_in_field(
            s,
            d,
        ) && filled_except(w, s, d, k)
}

/// The word marking cells whose three lower neighbours in the same column
/// hold stones.
pub open spec fn vertical_win_word(w: u64) -> u64 {
    (w << 1) & (w << 2) & (w << 3)
}

/// The word marking cells that complete a line of stride `d`, as the
/// union of the four positions the missing cell can take in the line.
pub open spec fn side_win_word(w: u64, d: u64) -> u64 {
    ((w << d) & (w << ((2 * d) as u64)) & (w << ((3 * d) as u64))) | ((w << d) & (w << ((2
        * d) as u64)) & (w >> d)) | ((w >> d) & (w >> ((2 * d) as u64)) & (w << d)) | ((w >> d) & (w
        >> ((2 * d) as u64)) & (w >> ((3 * d) as u64)))
}

/// All cells on which a stone of this player would complete four in a row.
pub open spec fn winning_word(w: u64) -> u64 {
    (vertical_win_word(w) | side_win_word(w, 7) | side_win_word(w, 8) | side_win_word(
        w,
        6,
    )) & BOARD_MASK
}

/// A bit of the winning word lies on the field and comes from one of the
/// four direction words.
proof fn lemma_winning_word_split(w: u64, i: u64)
    by (bit_vector)
    requires
        i < 64,
        bit_set(winning_word(w), i),
    ensures
        in_field(i),
        bit_set(vertical_win_word(w), i) || bit_set(side_win_word(w, 7), i) || bit_set(
            side_win_word(w, 8),
            i,
        ) || bit_set(side_win_word(w, 6), i),
{
}

/// A bit of the vertical word has the three cells below it filled.
proof fn lemma_vertical_win_word_bit(w: u64, i: u64)
    by (bit_vector)
    requires
        i < 64,
        bit_set(vertical_win_word(w), i),
    ensures
        i >= 3,
        bit_set(w, (i - 3) as u64),
        bit_set(w, (i - 2) as u64),
        bit_set(w, (i - 1) as u64),
{
}

/// A bit of a side word has one of the four windows through it filled.
proof fn lemma_side_win_word_bit(w: u64, d: u64, i: u64)
    by (bit_vector)
    requires
        1 <= d <= 8,
        i < 64,
        bit_set(side_win_word(w, d), i),
    ensures
        (i >= 3 * d && bit_set(w, (i - 3 * d) as u64) && bit_set(w, (i - 2 * d) as u64) && bit_set(
            w,
            (i - d) as u64,
        )) || (i >= 2 * d && i + d < 64 && bit_set(w, (i - 2 * d) as u64) && bit_set(
            w,
            (i - d) as u64,
        ) && bit_set(w, (i + d) as u64)) || (i >= d && i + 2 * d < 64 && bit_set(w, (i - d) as u64)
            && bit_set(w, (i + d) as u64) && bit_set(w, (i + 2 * d) as u64)) || (i + 3 * d < 64
            && bit_set(w, (i + d) as u64) && bit_set(w, (i + 2 * d) as u64) && bit_set(
            w,
            (i + 3 * d) as u64,
        )),
{
}

/// A filled vertical window below `i` sets bit `i` of the winning word.
proof fn lemma_vertical_win_word_set(w: u64, i: u64)
    by (bit_vector)
    requires
        in_field(i),
        i >= 3,
        bit_set(w, (i - 3) as u64),
        bit_set(w, (i - 2) as u64),
        bit_set(w, (i - 1) as u64),
    ensures
        bit_set(winning_word(w), i),
{
}

/// A filled window through `i` at stride `d` sets bit `i` of the winning
/// word.
proof fn lemma_side_win_word_set(w: u64, s: u64, d: u64, k: u64)
    by (bit_vector)
    requires
        d == 6 || d == 7 || d == 8,
        k < 4,
        s + 3 * d < 64,
        in_field((s + k * d) as u64),
        filled_except(w, s, d, k),
    ensures
        bit_set(winning_word(w), (s + k * d) as u64),
{
}

/// The per-cell reading of the winning word: a bit is set exactly on the
/// playing-field cells where a stone would complete four in a row.
pub proof fn lemma_winning_word_semantics(w: u64, i: u64)
    requires
        valid_mask(w),
        i < 64,
    ensures
        bit_set(winning_word(w), i) <==> (in_field(i) && is_winning_cell(w, i)),
{
    if bit_set(winning_word(w), i) {
        lemma_winning_word_split(w, i);
        if bit_set(vertical_win_word(w), i) {
            lemma_vertical_win_word_bit(w, i);
            let s = (i - 3) as u64;
            lemma_valid_bit_in_field(w, s);
            lemma_valid_bit_in_field(w, (s + 1) as u64);
            lemma_valid_bit_in_field(w, (s + 2) as u64);
            assert(is_winning_cell(w, i)) by {
                assert(is_stride(1) && window_in_field(s, 1) && filled_except(w, s, 1, 3) && i == (
                s + 3 * 1) as u64);
            }
        } else {
            let d: u64 = if bit_set(side_win_word(w, 7), i) {
                7
            } else if bit_set(side_win_word(w, 8), i) {
                8
            } else {
                6
            };
            lemma_side_win_word_bit(w, d, i);
            if i >= 3 * d && bit_set(w, (i - 3 * d) as u64) && bit_set(w, (i - 2 * d) as u64)
                && bit_set(w, (i - d) as u64) {
                let s = (i - 3 * d) as u64;
                lemma_valid_bit_in_field(w, s);
                lemma_valid_bit_in_field(w, (s + d) as u64);
                lemma_valid_bit_in_field(w, (s + 2 * d) as u64);
                assert(window_in_field(s, d) && filled_except(w, s, d, 3) && i == (s + 3
                    * d) as u64);
            } else if i >= 2 * d && i + d < 64 && bit_set(w, (i - 2 * d) as u64) && bit_set(
                w,
                (i - d) as u64,
            ) && bit_set(w, (i + d) as u64) {
                let s = (i - 2 * d) as u64;
                lemma_valid_bit_in_field(w, s);
                lemma_valid_bit_in_field(w, (s + d) as u64);
                lemma_valid_bit_in_field(w, (s + 3 * d) as u64);
                assert(window_in_field(s, d) && filled_except(w, s, d, 2) && i == (s + 2
                    * d) as u64);
            } else if i >= d && i + 2 * d < 64 && bit_set(w, (i - d) as u64) && bit_set(
                w,
                (i + d) as u64,
            ) && bit_set(w, (i + 2 * d) as u64) {
                let s = (i - d) as u64;
                lemma_valid_bit_in_field(w, s);
                lemma_valid_bit_in_field(w, (s + 2 * d) as u64);
                lemma_valid_bit_in_field(w, (s + 3 * d) as u64);
                assert(window_in_field(s, d) && filled_except(w, s, d, 1) && i == (s + 1
                    * d) as u64);
            } else {
                let s = i;
                lemma_valid_bit_in_field(w, (s + d) as u64);
                lemma_valid_bit_in_field(w, (s + 2 * d) as u64);
                lemma_valid_bit_in_field(w, (s + 3 * d) as u64);
                assert(window_in_field(s, d) && filled_except(w, s, d, 0) && i == (s + 0
                    * d) as u64);
            }
        }
    }
    if in_field(i) && is_winning_cell(w, i) {
        let (s, d, k) = choose|s: u64, d: u64, k: u64|
            is_stride(d) && k < 4 && (d == 1 ==> k == 3) && i == (s + k * d) as u64
                && window_in_field(s, d) && filled_except(w, s, d, k);
        assert(s + 3 * d < 64);
        if d == 1 {
            lemma_vertical_win_word_set(w, i);
        } else {
            lemma_side_win_word_set(w, s, d, k);
        }
    }
}

/// Bit `x` of a word with one extra bit set, read bitwise.
pub proof fn lemma_or_single_bit(w: u64, i: u64, x: u64)
    by (bit_vector)
    requires
        i < 64,
    ensures
        bit_set(w | (1u64 << i), x) == (bit_set(w, x) || x == i),
{
}

/// A contiguous column holds no stone above an empty cell.
pub proof fn lemma_no_floating_stone(o: u64, i: u64)
    by (bit_vector)
    requires
        valid_mask(o),
        columns_contiguous(o),
        in_field(i),
        !bit_set(o, i),
    ensures
        !bit_set(o, (i + 1) as u64),
{
}

/// Dropping a stone on cell `i` moves the landing cell of its column one
/// row up and leaves every other landing cell alone.
pub proof fn lemma_possible_after_insert(o: u64, i: u64, j: u64)
    by (bit_vector)
    requires
        valid_mask(o),
        columns_contiguous(o),
        in_field(i),
        i % 7 == landing_row(o, i / 7),
        j < 64,
    ensures
        bit_set(possible_word(o | (1u64 << i)), j) <==> ((bit_set(possible_word(o), j) && j != i)
            || (j == (i + 1) as u64 && in_field((i + 1) as u64))),
{
}

/// Four in a row in a mask with one extra stone on a landing cell: either
/// the four stood already, or the landing cell completes it. The landing
/// cell has nothing above it, so a vertical four can only be completed
/// from above.
pub proof fn lemma_new_four_is_winning_cell(me: u64, o: u64, i: u64)
    requires
        valid_mask(me),
        valid_mask(o),
        columns_contiguous(o),
        me & !o == 0,
        in_field(i),
        !bit_set(o, i),
        has_four(me | (1u64 << i)),
    ensures
        has_four(me) || is_winning_cell(me, i),
{
    let grown = me | (1u64 << i);
    let (s, d) = choose|s: u64, d: u64| is_stride(d) && window_filled(grown, s, d);
    lemma_or_single_bit(me, i, s);
    lemma_or_single_bit(me, i, (s + d) as u64);
    lemma_or_single_bit(me, i, (s + 2 * d) as u64);
    lemma_or_single_bit(me, i, (s + 3 * d) as u64);
    assert(me & !o == 0 && bit_set(me, (i + 1) as u64) ==> bit_set(o, (i + 1) as u64))
        by (bit_vector);
    if s != i && (s + d) as u64 != i && (s + 2 * d) as u64 != i && (s + 3 * d) as u64 != i {
        assert(window_filled(me, s, d));
    } else {
        let k: u64 = if s == i {
            0
        } else if (s + d) as u64 == i {
            1
        } else if (s + 2 * d) as u64 == i {
            2
        } else {
            3
        };
        assert(filled_except(me, s, d, k));
        if d == 1 && k < 3 {
            // A stone directly above the empty cell `i` would float.
            assert(bit_set(me, (i + 1) as u64));
            lemma_no_floating_stone(o, i);
        } else {
            assert(i == (s + k * d) as u64);
            assert(is_winning_cell(me, i));
        }
    }
}

/// A stone on a winning cell completes four in a row.
pub proof fn lemma_winning_cell_completes(me: u64, i: u64)
    requires
        is_winning_cell(me, i),
        i < 64,
    ensures
        has_four(me | (1u64 << i)),
{
    let (s, d, k) = choose|s: u64, d: u64, k: u64|
        is_stride(d) && k < 4 && (d == 1 ==> k == 3) && i == (s + k * d) as u64 && window_in_field(
            s,
            d,
        ) && filled_except(me, s, d, k);
    lemma_or_single_bit(me, i, s);
    lemma_or_single_bit(me, i, (s + d) as u64);
    lemma_or_single_bit(me, i, (s + 2 * d) as u64);
    lemma_or_single_bit(me, i, (s + 3 * d) as u64);
    assert(window_filled(me | (1u64 << i), s, d));
}

/// A valid mask stays valid when a playing-field bit is set.
pub proof fn lemma_valid_set_field_bit(o: u64, i: u64)
    by (bit_vector)
    requires
        valid_mask(o),
        in_field(i),
    ensures
        valid_mask(o | (1u64 << i)),
{
}

/// A board with an empty playing-field cell holds fewer than 42 stones.
pub proof fn lemma_pop_missing_bit(o: u64, i: u64)
    requires
        valid_mask(o),
        in_field(i),
        !bit_set(o, i),
    ensures
        pop64(o) < 42,
{
    lemma_valid_set_field_bit(o, i);
    lemma_pop_insert(o, i);
    lemma_pop_bound(o | (1u64 << i));
}

/// A board with two distinct empty playing-field cells holds at most 40
/// stones.
pub proof fn lemma_pop_missing_two(o: u64, i: u64, j: u64)
    requires
        valid_mask(o),
        in_field(i),
        in_field(j),
        i != j,
        !bit_set(o, i),
        !bit_set(o, j),
    ensures
        pop64(o) <= 40,
{
    lemma_valid_set_field_bit(o, i);
    lemma_pop_insert(o, i);
    let grown = o | (1u64 << i);
    assert(!bit_set(grown, j)) by (bit_vector)
        requires
            grown == o | (1u64 << i),
            !bit_set(o, j),
            i != j,
            i < 64,
    ;
    lemma_valid_set_field_bit(grown, j);
    lemma_pop_insert(grown, j);
    lemma_pop_bound(grown | (1u64 << j));
}

/// A well-formed board with every column full is the full board.
pub proof fn lemma_all_columns_full(o: u64)
    by (bit_vector)
    requires
        valid_mask(o),
        columns_contiguous(o),
        bit_set(o, 5),
        bit_set(o, 12),
        bit_set(o, 19),
        bit_set(o, 26),
        bit_set(o, 33),
        bit_set(o, 40),
        bit_set(o, 47),
    ensures
        o == BOARD_MASK,
{
}

/// The full board holds exactly 42 stones.
pub proof fn lemma_pop_board_mask()
    ensures
        pop64(BOARD_MASK) == 42,
{
    lemma_count_board(64);
}

/// The lowest row of column `c` whose cell holds no stone; 6 when the
/// column is full. On a contiguous occupancy mask this is the height of
/// the column, and the row on which the next stone in `c` lands.
pub open spec fn landing_row(o: u64, c: u64) -> u64 {
    if !bit_set(o, (7 * c) as u64) {
        0
    } else if !bit_set(o, (7 * c + 1) as u64) {
        1
    } else if !bit_set(o, (7 * c + 2) as u64) {
        2
    } else if !bit_set(o, (7 * c + 3) as u64) {
        3
    } else if !bit_set(o, (7 * c + 4) as u64) {
        4
    } else if !bit_set(o, (7 * c + 5) as u64) {
        5
    } else {
        6
    }
}

/// The cell index on which the next stone in column `c` lands.
pub open spec fn landing_index(o: u64, c: u64) -> u64 {
    (7 * c + landing_row(o, c)) as u64
}

/// The word holding one bit per non-full column: the cell on which the
/// next stone in that column would land.
pub open spec fn possible_word(o: u64) -> u64 {
    ((o + BOTTOM_ROW) as u64) & BOARD_MASK
}

/// The occupancy mask after a stone lands in column `c`.
pub open spec fn insert_word(o: u64, c: u64) -> u64 {
    o | ((o + (1u64 << ((7 * c) as u64))) as u64)
}

/// On a well-formed occupancy mask, the landing word has exactly one bit
/// per non-full column, on that column's landing cell.
pub proof fn lemma_possible_word(o: u64, i: u64)
    by (bit_vector)
    requires
        valid_mask(o),
        columns_contiguous(o),
        i < 64,
    ensures
        bit_set(possible_word(o), i) <==> (in_field(i) && i % 7 == landing_row(o, i / 7)),
{
}

/// Inserting into a non-full column of a well-formed occupancy mask sets
/// exactly the landing cell of that column and keeps the mask well formed.
pub proof fn lemma_insert_word(o: u64, c: u64)
    by (bit_vector)
    requires
        valid_mask(o),
        columns_contiguous(o),
        c < 7,
        !bit_set(o, (7 * c + 5) as u64),
    ensures
        landing_row(o, c) < 6,
        !bit_set(o, landing_index(o, c)),
        insert_word(o, c) == o | (1u64 << landing_index(o, c)),
        valid_mask(insert_word(o, c)),
        columns_contiguous(insert_word(o, c)),
{
}

/// On a contiguous occupancy mask a column is full exactly when its
/// landing row has reached the sentinel.
pub proof fn lemma_full_column(o: u64, c: u64)
    by (bit_vector)
    requires
        valid_mask(o),
        columns_contiguous(o),
        c < 7,
    ensures
        bit_set(o, (7 * c + 5) as u64) <==> landing_row(o, c) == 6,
{
}

/// The landing cell of a non-full column of a well-formed occupancy
/// mask: a playing-field cell that holds no stone yet.
pub proof fn lemma_landing_cell(o: u64, c: u64)
    requires
        valid_mask(o),
        columns_contiguous(o),
        c < 7,
        !bit_set(o, (7 * c + 5) as u64),
    ensures
        landing_row(o, c) < 6,
        !bit_set(o, landing_index(o, c)),
        in_field(landing_index(o, c)),
{
    lemma_insert_word(o, c);
}

/// The number of set bits among the lowest `n` bits of `w`.
pub open spec fn count_bits(w: u64, n: nat) -> nat
    decreases n,
{
    if n == 0 {
        0
    } else {
        count_bits(w, (n - 1) as nat) + if bit_set(w, (n - 1) as u64) {
            1nat
        } else {
            0nat
        }
    }
}

/// The number of set bits of `w`.
pub open spec fn pop64(w: u64) -> nat {
    count_bits(w, 64)
}

/// Relies on `u64::count_ones` of std: it returns the number of ones in
/// the binary representation of its argument.
pub assume_specification[ u64::count_ones ](w: u64) -> (r: u32)
    ensures
        r == pop64(w),
;

proof fn lemma_count_bits_le(w: u64, n: nat)
    ensures
        count_bits(w, n) <= n,
    decreases n,
{
    if n > 0 {
        lemma_count_bits_le(w, (n - 1) as nat);
    }
}

/// A submask never holds more stones than its superset.
proof fn lemma_count_subset(a: u64, b: u64, n: nat)
    requires
        a & !b == 0,
    ensures
        count_bits(a, n) <= count_bits(b, n),
    decreases n,
{
    if n > 0 {
        lemma_count_subset(a, b, (n - 1) as nat);
        let i = (n - 1) as u64;
        assert(a & !b == 0 && bit_set(a, i) ==> bit_set(b, i)) by (bit_vector);
    }
}

/// Setting one clear bit raises the count by exactly one.
proof fn lemma_count_set_bit(w: u64, i: u64, n: nat)
    requires
        !bit_set(w, i),
        i < 64,
        n <= 64,
    ensures
        count_bits(w | (1u64 << i), n) == count_bits(w, n) + if i < n {
            1nat
        } else {
            0nat
        },
    decreases n,
{
    if n > 0 {
        lemma_count_set_bit(w, i, (n - 1) as nat);
        let j = (n - 1) as u64;
        assert(i < 64 ==> bit_set(w | (1u64 << i), j) == (bit_set(w, j) || i == j)) by (bit_vector);
    }
}

/// The board mask holds exactly the playing-field bits.
proof fn lemma_board_mask_bit(j: u64)
    by (bit_vector)
    ensures
        bit_set(BOARD_MASK, j) <==> in_field(j),
{
}

/// Counting the playing-field bits from the bottom: each group of seven
/// indices contributes its six field cells and skips its sentinel.
proof fn lemma_count_board(n: nat)
    requires
        n <= 64,
    ensures
        count_bits(BOARD_MASK, n) == if n <= 49 {
            (n - n / 7) as int
        } else {
            42int
        },
    decreases n,
{
    if n > 0 {
        lemma_count_board((n - 1) as nat);
        lemma_board_mask_bit((n - 1) as u64);
    }
}

proof fn lemma_count_zero(n: nat)
    ensures
        count_bits(0, n) == 0,
    decreases n,
{
    if n > 0 {
        lemma_count_zero((n - 1) as nat);
        lemma_zero_bit((n - 1) as u64);
    }
}

/// Setting one clear bit of a mask adds one stone.
pub proof fn lemma_pop_insert(o: u64, i: u64)
    requires
        i < 64,
        !bit_set(o, i),
    ensures
        pop64(o | (1u64 << i)) == pop64(o) + 1,
{
    lemma_count_set_bit(o, i, 64);
}

/// The empty word holds no stones.
pub proof fn lemma_pop_zero()
    ensures
        pop64(0) == 0,
{
    lemma_count_zero(64);
}

/// A valid mask holds at most 42 stones.
pub proof fn lemma_pop_bound(w: u64)
    requires
        valid_mask(w),
    ensures
        pop64(w) <= 42,
{
    lemma_count_subset(w, BOARD_MASK, 64);
    lemma_count_board(64);
}

/// Bitboard containing the stones of one player.
///
/// A `1` represents a stone of that player; `0` is an empty cell, or a
/// stone of the other player.
#[derive(Clone, Copy, PartialEq, Eq, Structural, Debug)]
pub struct PlayerStones(pub u64);

impl PlayerStones {
    /// Create an empty bitboard.
    pub fn new() -> (r: PlayerStones)
        ensures
            r.0 == 0,
    {
        PlayerStones(0)
    }

    /// Tells if the board has no stone in the specified place. The bottom
    /// row and the leftmost column are `0`.
    pub fn is_empty(self, row: u8, column: u8) -> (r: bool)
        requires
            row < 7,
            column < 7,
        ensures
            r == !bit_set(self.0, (7 * column + row) as u64),
    {
        let mask = cell(row, column);
        let w = self.0;
        proof {
            let i = (7 * column + row) as u64;
            assert((mask & w == 0) == !bit_set(w, i)) by (bit_vector)
                requires
                    i < 64,
                    mask == 1u64 << i,
            ;
        }
        (mask & w) == 0
    }

    /// Place a stone at the specified position.
    pub fn place_stone(&mut self, row: u8, column: u8)
        requires
            row < 7,
            column < 7,
        ensures
            final (self).0 == old(self).0 | (1u64 << ((7 * column + row) as u64)),
    {
        self.0 = self.0 | cell(row, column);
    }

    /// Tells if this player has four stones in a row: vertically,
    /// horizontally, or on either diagonal.
    pub fn is_win(self) -> (r: bool)
        requires
            valid_mask(self.0),
        ensures
            r == has_four(self.0),
    {
        let w = self.0;
        let y6 = w & (w >> 6);
        if (y6 & (y6 >> 12)) != 0 {
            // check \ diagonal
            proof {
                assert(y6 & (y6 >> 12) == quad_word(w, 6));
                lemma_quad_word_characterizes(w, 6);
            }
            return true;
        }
        let y7 = w & (w >> 7);
        if (y7 & (y7 >> 14)) != 0 {
            // check horizontal
            proof {
                assert(y7 & (y7 >> 14) == quad_word(w, 7));
                lemma_quad_word_characterizes(w, 7);
            }
            return true;
        }
        let y8 = w & (w >> 8);
        if (y8 & (y8 >> 16)) != 0 {
            // check / diagonal
            proof {
                assert(y8 & (y8 >> 16) == quad_word(w, 8));
                lemma_quad_word_characterizes(w, 8);
            }
            return true;
        }
        let y1 = w & (w >> 1);
        if (y1 & (y1 >> 2)) != 0 {
            // check vertical
            proof {
                assert(y1 & (y1 >> 2) == quad_word(w, 1));
                lemma_quad_word_characterizes(w, 1);
            }
            return true;
        }
        proof {
            lemma_quad_word_characterizes(w, 1);
            lemma_quad_word_characterizes(w, 6);
            lemma_quad_word_characterizes(w, 7);
            lemma_quad_word_characterizes(w, 8);
        }
        false
    }

    /// Bitmask with `1`s in all positions which would imply victory for
    /// this player if he could place a stone on them.
    pub fn winning_positions(self) -> (r: u64)
        requires
            valid_mask(self.0),
        ensures
            r == winning_word(self.0),
            forall|i: u64|
                i < 64 ==> (bit_set(r, i) <==> (in_field(i) && is_winning_cell(self.0, i))),
    {
        let w = self.0;
        // Vertical: only winnable by adding one stone on top of three.
        let vertical = (w << 1) & (w << 2) & (w << 3);

        // Horizontal and both diagonals: a line can be completed at either
        // end or by filling one of the two middle gaps.
        let two_left_7 = (w << 7) & (w << 14);
        let two_right_7 = (w >> 7) & (w >> 14);
        let horizontal = (two_left_7 & (w << 21)) | (two_left_7 & (w >> 7)) | (two_right_7 & (w
            << 7)) | (two_right_7 & (w >> 21));

        let two_left_8 = (w << 8) & (w << 16);
        let two_right_8 = (w >> 8) & (w >> 16);
        let rising = (two_left_8 & (w << 24)) | (two_left_8 & (w >> 8)) | (two_right_8 & (w << 8))
            | (two_right_8 & (w >> 24));

        let two_left_6 = (w << 6) & (w << 12);
        let two_right_6 = (w >> 6) & (w >> 12);
        let falling = (two_left_6 & (w << 18)) | (two_left_6 & (w >> 6)) | (two_right_6 & (w << 6))
            | (two_right_6 & (w >> 18));

        let r = (vertical | horizontal | rising | falling) & BOARD_MASK;
        proof {
            assert(r == winning_word(w));
            assert forall|i: u64| i < 64 implies (bit_set(r, i) <==> (in_field(i)
                && is_winning_cell(w, i))) by {
                lemma_winning_word_semantics(w, i);
            }
        }
        r
    }

    /// Changes the bitmask to represent the stones of the other player.
    pub fn flip(&mut self, mask: AllStones)
        ensures
            final (self).0 == old(self).0 ^ mask.0,
    {
        self.0 = self.0 ^ mask.0;
    }

    /// A unique key encoding the board. Starting from bit 49 everything is
    /// guaranteed to be zero: the sum never carries across a column, since
    /// each column of the occupancy is filled from the bottom. Two
    /// different boards are guaranteed to have two different keys.
    pub fn key(self, mask: AllStones) -> (r: u64)
        requires
            valid_mask(self.0),
            valid_mask(mask.0),
            columns_contiguous(mask.0),
            self.0 & !mask.0 == 0,
        ensures
            r == self.0 + mask.0,
            r < 0x2000000000000,
    {
        let a = self.0;
        let b = mask.0;
        proof {
            assert(a + b < 0x2000000000000) by (bit_vector)
                requires
                    a & !b == 0,
                    b & !BOARD_MASK == 0,
                    b & ((b + BOTTOM_ROW) as u64) == 0,
            ;
        }
        a + b
    }
}

/// The side to move may land a stone on cell `i` without handing the
/// opponent, whose stones are `m`, a win on the immediate reply: `i` is a
/// landing cell, every landing cell on which the opponent would complete
/// four is `i` itself, and the cell opened up directly above `i` completes
/// no line of the opponent.
pub open spec fn safe_landing(m: u64, o: u64, i: u64) -> bool {
    &&& in_field(i) && i % 7 == landing_row(o, i / 7)
    &&& forall|t: u64|
        t < 64 && in_field(t) && t % 7 == landing_row(o, t / 7) && is_winning_cell(m, t) ==> t == i
    &&& !(in_field((i + 1) as u64) && is_winning_cell(m, (i + 1) as u64))
}

/// Bit `i` of a conjunction, read bitwise.
pub proof fn lemma_and_bit(a: u64, b: u64, i: u64)
    by (bit_vector)
    ensures
        bit_set(a & b, i) == (bit_set(a, i) && bit_set(b, i)),
{
}

/// The zero word has no set bit.
pub proof fn lemma_zero_bit(i: u64)
    by (bit_vector)
    ensures
        !bit_set(0, i),
{
}

/// Removing the cells directly below a marked cell, read bitwise.
proof fn lemma_below_mark_bit(l: u64, t: u64, i: u64)
    by (bit_vector)
    requires
        i < 63,
    ensures
        bit_set(l & !(t >> 1), i) == (bit_set(l, i) && !bit_set(t, (i + 1) as u64)),
{
}

/// A word with a single set bit marks one cell only.
proof fn lemma_single_bit(f: u64, x: u64, y: u64)
    by (bit_vector)
    requires
        f & ((f - 1) as u64) == 0,
        bit_set(f, x),
        bit_set(f, y),
    ensures
        x == y,
{
}

/// Clearing the lowest set bit leaves only strictly higher bits.
proof fn lemma_second_bit(f: u64, j0: u64, j1: u64)
    by (bit_vector)
    requires
        j0 < 64,
        bit_set(f, j0),
        f << ((64 - j0) as u64) == 0,
        bit_set(f & ((f - 1) as u64), j1),
    ensures
        j1 != j0,
        bit_set(f, j1),
{
}

/// A mark directly above a bit shows up in the shifted conjunction.
proof fn lemma_above_mark(f: u64, t: u64, i: u64)
    by (bit_vector)
    requires
        i < 63,
        bit_set(f, i),
        bit_set(t, (i + 1) as u64),
    ensures
        (f << 1) & t != 0,
{
}

/// Reading a bit of the shifted conjunction back.
proof fn lemma_above_mark_bit(f: u64, t: u64, z: u64)
    by (bit_vector)
    requires
        bit_set((f << 1) & t, z),
    ensures
        z >= 1,
        bit_set(f, (z - 1) as u64),
        bit_set(t, z),
{
}

/// The set of moves which prevent the opponent from winning immediately,
/// as a mask of landing cells.
#[derive(Clone, Copy, PartialEq, Eq, Structural, Debug)]
pub struct NonLoosingMoves(pub u64);

impl NonLoosingMoves {
    /// Compute the landing cells the side to move can use without losing
    /// on the spot. `last` holds the stones of the player who moved last,
    /// `both` the whole occupancy.
    pub fn new(last: PlayerStones, both: AllStones) -> (r: NonLoosingMoves)
        requires
            valid_mask(last.0),
            valid_mask(both.0),
            columns_contiguous(both.0),
        ensures
            forall|i: u64| i < 64 ==> (bit_set(r.0, i) <==> safe_landing(last.0, both.0, i)),
    {
        let m = last.0;
        let o = both.0;
        let threats = last.winning_positions();
        let landings = both.possible();
        let forced = threats & landings;
        proof {
            assert forall|x: u64| x < 64 implies bit_set(forced, x) == (bit_set(threats, x)
                && bit_set(landings, x)) by {
                lemma_and_bit(threats, landings, x);
            }
            assert forall|x: u64| x < 64 && bit_set(landings, x) implies x < 48 by {
                lemma_possible_word(o, x);
            }
            if forced == 0 {
                assert forall|x: u64| x < 64 implies !(bit_set(threats, x) && bit_set(
                    landings,
                    x,
                )) by {
                    lemma_and_bit(threats, landings, x);
                    lemma_zero_bit(x);
                }
            }
        }
        let mask: u64;
        if forced == 0 {
            mask = landings & !(threats >> 1);
            proof {
                assert forall|i: u64| i < 64 implies (bit_set(mask, i) <==> safe_landing(
                    m,
                    o,
                    i,
                )) by {
                    if i < 63 {
                        lemma_below_mark_bit(landings, threats, i);
                        if bit_set(mask, i) {
                            lemma_winning_word_semantics(m, (i + 1) as u64);
                        }
                        if safe_landing(m, o, i) {
                            lemma_winning_word_semantics(m, (i + 1) as u64);
                        }
                    } else {
                        assert(bit_set(mask, i) ==> bit_set(landings, i)) by (bit_vector)
                            requires
                                mask == landings & !(threats >> 1),
                        ;
                    }
                }
            }
        } else if (forced & (forced - 1)) != 0 {
            // Two or more landing cells complete a line of the opponent:
            // at most one can be blocked, so every move loses.
            mask = 0;
            proof {
                vstd::std_specs::bits::axiom_u64_trailing_zeros(forced);
                let j0 = vstd::std_specs::bits::u64_trailing_zeros(forced) as u64;
                let cleared = forced & ((forced - 1) as u64);
                lemma_nonzero_has_bit(cleared);
                let j1 = choose|j1: u64| j1 < 64 && bit_set(cleared, j1);
                lemma_second_bit(forced, j0, j1);
                assert forall|i: u64| i < 64 implies (bit_set(mask, i) <==> safe_landing(
                    m,
                    o,
                    i,
                )) by {
                    lemma_zero_bit(i);
                    lemma_possible_word(o, j0);
                    lemma_possible_word(o, j1);
                    lemma_winning_word_semantics(m, j0);
                    lemma_winning_word_semantics(m, j1);
                }
            }
        } else {
            // Exactly one landing cell completes a line of the opponent:
            // the side to move must land there, and may only do so when
            // the cell opened above it completes no line either.
            proof {
                vstd::std_specs::bits::axiom_u64_trailing_zeros(forced);
            }
            let ghost f = vstd::std_specs::bits::u64_trailing_zeros(forced) as u64;
            proof {
                lemma_possible_word(o, f);
                lemma_winning_word_semantics(m, f);
                assert forall|x: u64| x < 64 && bit_set(forced, x) implies x == f by {
                    lemma_single_bit(forced, x, f);
                }
            }
            if ((forced << 1) & threats) != 0 {
                mask = 0;
                proof {
                    lemma_nonzero_has_bit((forced << 1) & threats);
                    let z = choose|z: u64| z < 64 && bit_set((forced << 1) & threats, z);
                    lemma_above_mark_bit(forced, threats, z);
                    lemma_single_bit(forced, (z - 1) as u64, f);
                    lemma_winning_word_semantics(m, z);
                    assert forall|i: u64| i < 64 implies (bit_set(mask, i) <==> safe_landing(
                        m,
                        o,
                        i,
                    )) by {
                        lemma_zero_bit(i);
                    }
                }
            } else {
                mask = forced;
                proof {
                    assert forall|i: u64| i < 64 implies (bit_set(mask, i) <==> safe_landing(
                        m,
                        o,
                        i,
                    )) by {
                        if bit_set(mask, i) {
                            // The forced cell itself is a safe landing: were the
                            // cell above it a winning cell too, the branch on the
                            // shifted conjunction would have caught it.
                            assert(i == f);
                            if in_field((i + 1) as u64) && is_winning_cell(m, (i + 1) as u64) {
                                lemma_winning_word_semantics(m, (i + 1) as u64);
                                lemma_above_mark(forced, threats, i);
                            }
                        }
                        if safe_landing(m, o, i) && i != f {
                            assert(false);
                        }
                    }
                }
            }
        }
        NonLoosingMoves(mask)
    }

    /// `true` if no move avoids an immediate loss.
    pub fn is_empty(self) -> (r: bool)
        ensures
            r == (self.0 == 0),
    {
        self.0 == 0
    }

    /// `true` if the column holds a landing cell of this mask.
    pub fn contains(self, column: u8) -> (r: bool)
        requires
            column < 7,
        ensures
            r == exists|i: u64| i < 64 && i / 7 == column && bit_set(self.0, i),
    {
        let w = self.0;
        let part = (w >> (7 * column) as u64) & 0x7F;
        proof {
            if part != 0 {
                lemma_nonzero_has_bit(part);
                let j = choose|j: u64| j < 64 && bit_set(part, j);
                assert(j < 7 && bit_set(w, (7 * column + j) as u64) && (7 * column + j) / 7
                    == column) by (bit_vector)
                    requires
                        part == (w >> ((7 * column) as u64)) & 0x7F,
                        bit_set(part, j),
                        column < 7,
                        j < 64,
                ;
            }
            if part == 0 {
                assert forall|i: u64| i < 64 && i / 7 == column implies !bit_set(w, i) by {
                    assert((w >> ((7 * column) as u64)) & 0x7F == 0 && i < 64 && i / 7 == column
                        ==> !bit_set(w, i)) by (bit_vector)
                        requires
                            column < 7,
                    ;
                }
            }
        }
        part != 0
    }
}

/// Heuristic used to decide which moves to explore first, in order to
/// allow for better pruning of the search tree. Counts the empty cells on
/// which the player who moved last could complete four in a row. Higher
/// means better for that player.
pub fn heuristic(last: PlayerStones, both: AllStones) -> (r: u32)
    requires
        valid_mask(last.0),
    ensures
        r == pop64(winning_word(last.0) & !both.0),
{
    (last.winning_positions() & !both.0).count_ones()
}

/// Return a bitmask with 0 everywhere but the bit identified by row and
/// column.
pub fn cell(row: u8, column: u8) -> (r: u64)
    requires
        row < 7,
        column < 7,
    ensures
        r == 1u64 << ((7 * column + row) as u64),
{
    1u64 << (7 * column + row) as u64
}

/// Bitboard containing the stones of both players.
#[derive(Clone, Copy, PartialEq, Eq, Structural, Debug)]
pub struct AllStones(pub u64);

impl AllStones {
    /// Create an empty occupancy mask.
    pub fn new() -> (r: AllStones)
        ensures
            r.0 == 0,
    {
        AllStones(0)
    }

    /// `true` if the column identified by the index contains six stones.
    pub fn is_full(self, column: u8) -> (r: bool)
        requires
            column < 7,
        ensures
            r == bit_set(self.0, (7 * column + 5) as u64),
    {
        !self.is_empty(5, column)
    }

    /// Tells if the board has no stone in the specified place. The bottom
    /// row and the leftmost column are `0`.
    pub fn is_empty(self, row: u8, column: u8) -> (r: bool)
        requires
            row < 7,
            column < 7,
        ensures
            r == !bit_set(self.0, (7 * column + row) as u64),
    {
        let mask = cell(row, column);
        let w = self.0;
        proof {
            let i = (7 * column + row) as u64;
            assert((mask & w == 0) == !bit_set(w, i)) by (bit_vector)
                requires
                    i < 64,
                    mask == 1u64 << i,
            ;
        }
        (mask & w) == 0
    }

    /// Add a stone into a column. The caller must check before that the
    /// column is not already full. The stone lands on the lowest empty row
    /// of the column.
    pub fn insert(&mut self, column: u8)
        requires
            valid_mask(old(self).0),
            columns_contiguous(old(self).0),
            column < 7,
            !bit_set(old(self).0, (7 * column + 5) as u64),
        ensures
            final (self).0 == old(self).0 | (1u64 << landing_index(old(self).0, column as u64)),
            landing_row(old(self).0, column as u64) < 6,
            !bit_set(old(self).0, landing_index(old(self).0, column as u64)),
            valid_mask(final (self).0),
            columns_contiguous(final (self).0),
            pop64(final (self).0) == pop64(old(self).0) + 1,
    {
        let o = self.0;
        proof {
            lemma_insert_word(o, column as u64);
            assert(valid_mask(o) ==> o <= BOARD_MASK) by (bit_vector);
            assert(column < 7 ==> 1u64 << ((7 * column) as u64) <= 0x40000000000000) by (bit_vector);
            lemma_count_set_bit(o, landing_index(o, column as u64), 64);
        }
        self.0 = o | (o + cell(0, column));
    }

    /// Total number of stones on the board.
    pub fn stones(self) -> (r: u8)
        requires
            valid_mask(self.0),
        ensures
            r == pop64(self.0),
            r <= 42,
    {
        proof {
            lemma_pop_bound(self.0);
        }
        self.0.count_ones() as u8
    }

    /// Bitmask of the possible positions for the next stone to land in:
    /// one bit per non-full column, on that column's landing cell.
    pub fn possible(self) -> (r: u64)
        requires
            valid_mask(self.0),
            columns_contiguous(self.0),
        ensures
            r == possible_word(self.0),
            forall|i: u64|
                i < 64 ==> (bit_set(r, i) <==> (in_field(i) && i % 7 == landing_row(
                    self.0,
                    i / 7,
                ))),
    {
        let o = self.0;
        proof {
            assert(valid_mask(o) ==> o <= BOARD_MASK) by (bit_vector);
            assert forall|i: u64| i < 64 implies (bit_set(possible_word(o), i) <==> (in_field(i)
                && i % 7 == landing_row(o, i / 7))) by {
                lemma_possible_word(o, i);
            }
        }
        (o + BOTTOM_ROW) & BOARD_MASK
    }
}

} // verus!
