//! The solver: a negamax search with alpha-beta pruning, driven by a
//! null-window bisection, backed by a transposition table of upper bounds
//! and an optional opening book.

use vstd::multiset::Multiset;
use vstd::prelude::*;

use crate::bitboard::{
    bit_set, has_four, is_winning_cell, landing_index, lemma_pop_bound, safe_landing,
};
use crate::precalculated::{precalculated_score, OpeningBook};
use crate::transposition_table::TranspositionTable;
use crate::{spec_legal_cols, Column, ConnectFour};

verus! {

broadcast use vstd::seq_lib::group_to_multiset_ensures, vstd::multiset::group_multiset_axioms;

/// The score of a finished game from the perspective of the player whose
/// turn it would be, assuming the last stone won after `num_stones`
/// stones: minus the number of stones the winner still holds, minus one.
/// Past a full board the value keeps the rounding of the stone count
/// toward zero; such counts only arise as slack bounds for wins that can
/// no longer happen.
pub open spec fn spec_score_from(num_stones: int) -> int {
    if num_stones <= 42 {
        -((42 - num_stones) / 2 + 1)
    } else {
        (num_stones - 42) / 2 - 1
    }
}

/// Score from the perspective of the current player (who can no longer
/// move, because the game is over), assuming the last stone won after
/// `num_stones` stones.
pub fn score_from_num_stones(num_stones: i8) -> (r: i8)
    requires
        0 <= num_stones <= 44,
    ensures
        r as int == spec_score_from(num_stones as int),
        -22 <= r as int <= 0,
{
    if num_stones <= 42 {
        // Remaining stones of the winning player.
        let remaining_stones = (42 - num_stones) / 2;
        // Score is from the perspective of the moving player. So if the
        // current position is a win, it is negative.
        -(remaining_stones + 1)
    } else {
        (num_stones - 42) / 2 - 1
    }
}

/// How soon a column should be explored, as its rank in the static
/// order 3, 2, 4, 1, 5, 0, 6: the center first, then outward, since
/// central columns are better on average, which allows for faster
/// pruning. Smaller means earlier.
pub open spec fn spec_column_priority(col: u8) -> int {
    if col == 0 {
        5
    } else if col == 1 {
        3
    } else if col == 2 {
        1
    } else if col == 3 {
        0
    } else if col == 4 {
        2
    } else if col == 5 {
        4
    } else {
        6
    }
}

/// The exploration rank of a column; see [`spec_column_priority`].
pub fn column_priority(col: u8) -> (r: u8)
    requires
        col < 7,
    ensures
        r == spec_column_priority(col),
{
    match col {
        0 => 5,
        1 => 3,
        2 => 1,
        3 => 0,
        4 => 2,
        5 => 4,
        _ => 6,
    }
}

/// Entry `x` deserves exploration no later than entry `y`: it carries a
/// higher heuristic, or the same heuristic and a column of no worse
/// priority.
pub open spec fn explored_no_later(x: (u8, u32, ConnectFour), y: (u8, u32, ConnectFour)) -> bool {
    x.1 > y.1 || (x.1 == y.1 && spec_column_priority(x.0) <= spec_column_priority(y.0))
}

/// A child position a search will descend into is sound to search: well
/// formed, one stone heavier, and neither side can end the game on the
/// very next stone.
pub open spec fn child_searchable(q: ConnectFour, p: ConnectFour) -> bool {
    &&& q.wf()
    &&& q.spec_stones() == p.spec_stones() + 1
    &&& !q.spec_victory()
    &&& !has_four(q.spec_me())
    &&& !q.spec_can_win_now()
}

/// Stack-allocated container for possible moves. Iterates over moves in a
/// fashion which allows pruning the search tree sooner.
pub struct MoveExplorer {
    /// Per considered move: the column, the heuristic of the reached
    /// position, and the position itself.
    pub moves: Vec<(u8, u32, ConnectFour)>,
}

impl MoveExplorer {
    /// The stored positions, in order.
    pub open spec fn spec_entries(self) -> Seq<(u8, u32, ConnectFour)> {
        self.moves@
    }

    pub fn new() -> (r: MoveExplorer)
        ensures
            r.spec_entries().len() == 0,
    {
        MoveExplorer { moves: Vec::new() }
    }

    /// Consider playing `col_index` on `from`: record the column, the
    /// reached position and its exploration heuristic.
    pub fn add(&mut self, col_index: u8, from: &ConnectFour)
        requires
            from.wf(),
            col_index < 7,
            from.spec_legal(col_index as u64),
            old(self).spec_entries().len() < 7,
        ensures
            final (self).spec_entries().len() == old(self).spec_entries().len() + 1,
            forall|k: int|
                0 <= k < old(self).spec_entries().len() ==> final (self).spec_entries()[k] == old(
                    self,
                ).spec_entries()[k],
            final (self).spec_entries().last().0 == col_index,
            final (self).spec_entries().last().1 == crate::bitboard::pop64(
                crate::bitboard::winning_word(from.spec_play(col_index as u64).last.0) & !from.spec_play(
                    col_index as u64,
                ).both.0,
            ),
            final (self).spec_entries().last().2 == from.spec_play(col_index as u64),
    {
        let mut next_position = *from;
        let is_legal = next_position.play(Column::from_index(col_index));
        proof {
            assert(is_legal);
        }
        let score = next_position.heuristic();
        self.moves.push((col_index, score, next_position));
    }

    /// Reorder the moves so that positions with a higher heuristic come
    /// first, ties broken by the static column priority: the entries
    /// afterwards are a permutation of the entries before, in exploration
    /// order.
    pub fn sort(&mut self)
        requires
            forall|k: int|
                0 <= k < old(self).spec_entries().len() ==> (#[trigger] old(
                    self,
                ).spec_entries()[k]).0 < 7,
        ensures
            final (self).spec_entries().to_multiset() == old(self).spec_entries().to_multiset(),
            final (self).spec_entries().len() == old(self).spec_entries().len(),
            forall|a: int, b: int|
                0 <= a < b < final (self).spec_entries().len() ==> explored_no_later(
                    #[trigger] final (self).spec_entries()[a],
                    #[trigger] final (self).spec_entries()[b],
                ),
    {
        let ghost orig = self.moves@;
        proof {
            assert(Seq::<(u8, u32, ConnectFour)>::empty().to_multiset() =~= Multiset::empty());
            assert(orig == old(self).spec_entries());
            assert forall|k: int| 0 <= k < self.moves@.len() implies (
            #[trigger] self.moves@[k]).0 < 7 by {
                assert(self.moves@[k] == old(self).spec_entries()[k]);
            }
        }
        let mut sorted: Vec<(u8, u32, ConnectFour)> = Vec::new();
        while self.moves.len() > 0
            invariant
                sorted@.to_multiset().add(self.moves@.to_multiset()) == orig.to_multiset(),
                sorted@.len() + self.moves@.len() == orig.len(),
                forall|k: int| 0 <= k < self.moves@.len() ==> (#[trigger] self.moves@[k]).0 < 7,
                forall|k: int| 0 <= k < sorted@.len() ==> (#[trigger] sorted@[k]).0 < 7,
                forall|a: int, b: int|
                    0 <= a < b < sorted@.len() ==> explored_no_later(
                        #[trigger] sorted@[a],
                        #[trigger] sorted@[b],
                    ),
                forall|a: int, k: int|
                    0 <= a < sorted@.len() && 0 <= k < self.moves@.len() ==> explored_no_later(
                        #[trigger] sorted@[a],
                        #[trigger] self.moves@[k],
                    ),
            decreases self.moves@.len(),
        {
            // Select the entry to explore next among the remaining ones.
            let mut best: usize = 0;
            let mut j: usize = 1;
            while j < self.moves.len()
                invariant
                    self.moves@.len() > 0,
                    best < self.moves@.len(),
                    j <= self.moves@.len(),
                    forall|k: int| 0 <= k < self.moves@.len() ==> (#[trigger] self.moves@[k]).0 < 7,
                    forall|k: int|
                        0 <= k < j ==> explored_no_later(
                            self.moves@[best as int],
                            #[trigger] self.moves@[k],
                        ),
                decreases self.moves@.len() - j,
            {
                let cand = self.moves[j];
                let cur = self.moves[best];
                let better = cand.1 > cur.1 || (cand.1 == cur.1 && column_priority(cand.0)
                    < column_priority(cur.0));
                if better {
                    best = j;
                }
                j = j + 1;
            }
            let ghost rest_before = self.moves@;
            let ghost sorted_before = sorted@;
            let entry = self.moves.remove(best);
            sorted.push(entry);
            proof {
                assert(rest_before.to_multiset().count(entry) > 0);
                assert(sorted@.to_multiset().add(self.moves@.to_multiset()) =~= sorted_before
                    .to_multiset().add(rest_before.to_multiset()));
            }
        }
        self.moves = sorted;
        proof {
            assert(Seq::<(u8, u32, ConnectFour)>::empty().to_multiset() =~= Multiset::empty());
        }
    }

    /// The recorded positions, in exploration order.
    pub fn next_positions(&self) -> (r: Vec<ConnectFour>)
        ensures
            r@.len() == self.spec_entries().len(),
            forall|k: int| 0 <= k < r@.len() ==> r@[k] == self.spec_entries()[k].2,
    {
        let mut v: Vec<ConnectFour> = Vec::new();
        let mut k: usize = 0;
        while k < self.moves.len()
            invariant
                k <= self.moves.len(),
                v@.len() == k,
                forall|kk: int| 0 <= kk < k ==> v@[kk] == self.moves@[kk].2,
            decreases self.moves.len() - k,
        {
            v.push(self.moves[k].2);
            k = k + 1;
        }
        v
    }
}

/// The perfect-play value of a position, from the side to move: the
/// score of the finished game if the last stone won, zero on a full
/// board, and otherwise the best the side to move can reach over all
/// legal moves, each move worth the negated value of the position it
/// reaches.
pub open spec fn game_value(p: ConnectFour) -> int
    decreases 42 - p.spec_stones(), 8int,
    when p.wf()
{
    if p.spec_victory() {
        spec_score_from(p.spec_stones() as int)
    } else if p.spec_stones() >= 42 {
        0
    } else {
        best_child_value(p, 7)
    }
}

/// The best value the side to move can reach with a legal move below
/// column `n`; a bottom value where no column below `n` is open.
pub open spec fn best_child_value(p: ConnectFour, n: int) -> int
    decreases 42 - p.spec_stones(), n,
    when p.wf() && p.spec_stones() < 42 && n <= 7
{
    if n <= 0 {
        -100
    } else if p.spec_legal((n - 1) as u64) {
        let rest = best_child_value(p, n - 1);
        proof {
            crate::lemma_play_wf(p, (n - 1) as u64);
        }
        let candidate = -game_value(p.spec_play((n - 1) as u64));
        if candidate > rest {
            candidate
        } else {
            rest
        }
    } else {
        best_child_value(p, n - 1)
    }
}

/// The lowest value among the positions one legal move below column `n`
/// away: what the opponent is left with at best; a top value where no
/// column below `n` is open.
pub open spec fn worst_child_value(p: ConnectFour, n: int) -> int
    decreases n,
{
    if n <= 0 {
        100
    } else if p.spec_legal((n - 1) as u64) {
        let rest = worst_child_value(p, n - 1);
        let candidate = game_value(p.spec_play((n - 1) as u64));
        if candidate < rest {
            candidate
        } else {
            rest
        }
    } else {
        worst_child_value(p, n - 1)
    }
}

/// Taking the best of the negated child values is taking the negated
/// worst child value.
proof fn lemma_best_is_negated_worst(p: ConnectFour, n: int)
    requires
        p.wf(),
        p.spec_stones() < 42,
        0 <= n <= 7,
    ensures
        best_child_value(p, n) == -worst_child_value(p, n),
    decreases n,
{
    if n > 0 {
        lemma_best_is_negated_worst(p, n - 1);
        if p.spec_legal((n - 1) as u64) {
            crate::lemma_play_wf(p, (n - 1) as u64);
            let v = game_value(p.spec_play((n - 1) as u64));
            assert(best_child_value(p, n) == if -v > best_child_value(p, n - 1) {
                -v
            } else {
                best_child_value(p, n - 1)
            });
            assert(worst_child_value(p, n) == if v < worst_child_value(p, n - 1) {
                v
            } else {
                worst_child_value(p, n - 1)
            });
        } else {
            assert(best_child_value(p, n) == best_child_value(p, n - 1));
            assert(worst_child_value(p, n) == worst_child_value(p, n - 1));
        }
    } else {
        assert(best_child_value(p, 0) == -100);
        assert(worst_child_value(p, 0) == 100);
    }
}

/// Negamax symmetry: the value of an unfinished position is the negated
/// minimum over the values of the positions one legal move away.
pub proof fn lemma_negamax_symmetry(p: ConnectFour)
    requires
        p.wf(),
        !p.spec_victory(),
        p.spec_stones() < 42,
    ensures
        game_value(p) == -worst_child_value(p, 7),
{
    lemma_best_is_negated_worst(p, 7);
}

/// Folding over fewer columns can only lower the best reachable value.
proof fn lemma_best_child_lower(p: ConnectFour, n: int, c: u64)
    requires
        p.wf(),
        p.spec_stones() < 42,
        c < n <= 7,
        p.spec_legal(c),
    ensures
        best_child_value(p, n) >= -game_value(p.spec_play(c)),
    decreases n,
{
    if c < n - 1 {
        lemma_best_child_lower(p, n - 1, c);
    }
    if p.spec_legal((n - 1) as u64) {
        crate::lemma_play_wf(p, (n - 1) as u64);
    }
}

/// A bound that holds of every reachable child value bounds the fold.
proof fn lemma_best_child_upper(p: ConnectFour, n: int, bound: int)
    requires
        p.wf(),
        p.spec_stones() < 42,
        0 <= n <= 7,
        bound >= -100,
        forall|c: u64|
            c < 7 && p.spec_legal(c) ==> -game_value(#[trigger] p.spec_play(c)) <= bound,
    ensures
        best_child_value(p, n) <= bound,
    decreases n,
{
    if n > 0 {
        lemma_best_child_upper(p, n - 1, bound);
        if p.spec_legal((n - 1) as u64) {
            crate::lemma_play_wf(p, (n - 1) as u64);
        }
    }
}

/// An unfinished well-formed position has an open column.
proof fn lemma_exists_open_column(p: ConnectFour)
    requires
        p.wf(),
        p.spec_stones() < 42,
    ensures
        exists|c: u64| c < 7 && #[trigger] p.spec_legal(c),
{
    if !p.spec_legal(0) && !p.spec_legal(1) && !p.spec_legal(2) && !p.spec_legal(3)
        && !p.spec_legal(4) && !p.spec_legal(5) && !p.spec_legal(6) {
        crate::bitboard::lemma_all_columns_full(p.both.0);
        crate::bitboard::lemma_pop_board_mask();
    }
}

/// The value of a position stays between losing with the very next stone
/// of the game and winning with it: nothing settles faster than one more
/// stone.
pub proof fn lemma_value_bounds(p: ConnectFour)
    requires
        p.wf(),
    ensures
        spec_score_from(p.spec_stones() as int) <= game_value(p) <= -spec_score_from(
            p.spec_stones() as int + 1,
        ),
    decreases 42 - p.spec_stones(),
{
    crate::bitboard::lemma_pop_bound(p.both.0);
    let s = p.spec_stones() as int;
    if p.spec_victory() || s >= 42 {
    } else {
        assert forall|c: u64| c < 7 && p.spec_legal(c) implies -game_value(
            #[trigger] p.spec_play(c),
        ) <= -spec_score_from(s + 1) by {
            crate::lemma_play_wf(p, c);
            lemma_value_bounds(p.spec_play(c));
        }
        lemma_best_child_upper(p, 7, -spec_score_from(s + 1));
        lemma_exists_open_column(p);
        let c0 = choose|c: u64| c < 7 && #[trigger] p.spec_legal(c);
        crate::lemma_play_wf(p, c0);
        lemma_value_bounds(p.spec_play(c0));
        lemma_best_child_lower(p, 7, c0);
    }
}

/// Winning at once is optimal: a position in which the side to move can
/// complete four in a row with his next stone is worth exactly that
/// fastest win.
pub proof fn lemma_immediate_win_value(p: ConnectFour)
    requires
        p.wf(),
        !p.spec_victory(),
        p.spec_can_win_now(),
    ensures
        game_value(p) == -spec_score_from(p.spec_stones() as int + 1),
{
    let s = p.spec_stones() as int;
    let i = choose|i: u64|
        i < 64 && bit_set(crate::bitboard::possible_word(p.both.0), i) && is_winning_cell(
            p.spec_me(),
            i,
        );
    crate::bitboard::lemma_possible_word(p.both.0, i);
    let c = i / 7;
    vstd::arithmetic::div_mod::lemma_fundamental_div_mod(i as int, 7);
    crate::bitboard::lemma_full_column(p.both.0, c);
    crate::lemma_play_wf(p, c);
    assert(i == landing_index(p.both.0, c));
    crate::bitboard::lemma_pop_missing_bit(p.both.0, i);
    let q = p.spec_play(c);
    crate::bitboard::lemma_winning_cell_completes(p.spec_me(), i);
    assert(q.spec_victory());
    assert(game_value(q) == spec_score_from(s + 1));
    lemma_best_child_lower(p, 7, c);
    lemma_value_bounds(p);
    assert(game_value(p) == best_child_value(p, 7));
}

/// As long as the game is open, the side to move survives at least until
/// the opponent's next stone: the value never falls below a loss two
/// stones out.
proof fn lemma_value_lower(p: ConnectFour)
    requires
        p.wf(),
        !p.spec_victory(),
        p.spec_stones() < 42,
    ensures
        game_value(p) >= spec_score_from(p.spec_stones() as int + 2),
{
    lemma_exists_open_column(p);
    let c0 = choose|c: u64| c < 7 && #[trigger] p.spec_legal(c);
    crate::lemma_play_wf(p, c0);
    lemma_value_bounds(p.spec_play(c0));
    lemma_best_child_lower(p, 7, c0);
}

/// When the side to move cannot win with his next stone, his earliest
/// win is his second stone: the value never exceeds a win three stones
/// out.
proof fn lemma_value_upper_no_win(p: ConnectFour)
    requires
        p.wf(),
        !p.spec_victory(),
        !has_four(p.spec_me()),
        !p.spec_can_win_now(),
        p.spec_stones() < 42,
    ensures
        game_value(p) <= -spec_score_from(p.spec_stones() as int + 3),
{
    let s = p.spec_stones() as int;
    crate::bitboard::lemma_pop_bound(p.both.0);
    assert forall|c: u64| c < 7 && p.spec_legal(c) implies -game_value(#[trigger] p.spec_play(c))
        <= -spec_score_from(s + 3) by {
        crate::lemma_play_wf(p, c);
        crate::lemma_play_no_new_four(p, c);
        let q = p.spec_play(c);
        if q.spec_stones() < 42 {
            lemma_value_lower(q);
        }
    }
    lemma_best_child_upper(p, 7, -spec_score_from(s + 3));
}

/// A move whose landing cell the non-losing mask excludes hands the
/// opponent an immediate win.
proof fn lemma_unsafe_move_gives_win(p: ConnectFour, c: u64)
    requires
        p.wf(),
        c < 7,
        p.spec_legal(c),
        !safe_landing(p.last.0, p.both.0, landing_index(p.both.0, c)),
    ensures
        p.spec_play(c).spec_can_win_now(),
{
    let o = p.both.0;
    let m = p.last.0;
    crate::bitboard::lemma_landing_cell(o, c);
    let i = landing_index(o, c);
    crate::lemma_play_wf(p, c);
    let q = p.spec_play(c);
    assert(i % 7 == crate::bitboard::landing_row(o, c) && i / 7 == c) by (nonlinear_arith)
        requires
            i == 7 * c + crate::bitboard::landing_row(o, c),
            c < 7,
            crate::bitboard::landing_row(o, c) < 7,
    ;
    crate::bitboard::lemma_possible_word(o, i);
    assert(bit_set(crate::bitboard::possible_word(o), i));
    if exists|t: u64|
        t < 64 && crate::bitboard::in_field(t) && t % 7 == crate::bitboard::landing_row(o, t / 7)
            && is_winning_cell(m, t) && t != i {
        // Another landing cell completes a line of the opponent, and
        // stays a landing cell after the move.
        let t = choose|t: u64|
            t < 64 && crate::bitboard::in_field(t) && t % 7 == crate::bitboard::landing_row(
                o,
                t / 7,
            ) && is_winning_cell(m, t) && t != i;
        crate::bitboard::lemma_possible_word(o, t);
        crate::bitboard::lemma_possible_after_insert(o, i, t);
        assert(bit_set(crate::bitboard::possible_word(q.both.0), t));
        assert(q.spec_can_win_now());
    } else {
        // Then the cell opened directly above the move completes one.
        assert(crate::bitboard::in_field((i + 1) as u64) && is_winning_cell(m, (i + 1) as u64));
        crate::bitboard::lemma_possible_after_insert(o, i, (i + 1) as u64);
        assert(bit_set(crate::bitboard::possible_word(q.both.0), (i + 1) as u64));
        assert(q.spec_can_win_now());
    }
}

/// With one empty cell left and no winnable stone, the last move fills
/// the board: the position is a draw.
proof fn lemma_draw_one_cell_left(p: ConnectFour)
    requires
        p.wf(),
        !p.spec_victory(),
        !has_four(p.spec_me()),
        !p.spec_can_win_now(),
        p.spec_stones() == 41,
    ensures
        game_value(p) == 0,
{
    assert forall|c: u64| c < 7 && p.spec_legal(c) implies -game_value(#[trigger] p.spec_play(c))
        <= 0 by {
        crate::lemma_play_wf(p, c);
        crate::lemma_play_no_new_four(p, c);
    }
    lemma_best_child_upper(p, 7, 0);
    lemma_exists_open_column(p);
    let c0 = choose|c: u64| c < 7 && #[trigger] p.spec_legal(c);
    crate::lemma_play_wf(p, c0);
    crate::lemma_play_no_new_four(p, c0);
    lemma_best_child_lower(p, 7, c0);
}

/// With at most two empty cells left, no winnable stone for the mover,
/// and a move that does not hand the opponent a win, the game peters out
/// to a draw.
proof fn lemma_late_draw(p: ConnectFour, i: u64)
    requires
        p.wf(),
        !p.spec_victory(),
        !has_four(p.spec_me()),
        !p.spec_can_win_now(),
        40 <= p.spec_stones() < 42,
        safe_landing(p.last.0, p.both.0, i),
        i < 64,
    ensures
        game_value(p) == 0,
{
    let s = p.spec_stones() as int;
    // No move of ours can be beaten faster than a reply, and every reply
    // position is at worst a draw for us.
    assert forall|c: u64| c < 7 && p.spec_legal(c) implies -game_value(#[trigger] p.spec_play(c))
        <= 0 by {
        crate::lemma_play_wf(p, c);
        crate::lemma_play_no_new_four(p, c);
        let q = p.spec_play(c);
        if q.spec_stones() < 42 {
            if q.spec_can_win_now() {
                lemma_immediate_win_value(q);
            } else {
                lemma_draw_one_cell_left(q);
            }
        }
    }
    lemma_best_child_upper(p, 7, 0);
    // The safe move reaches a position worth exactly a draw.
    crate::lemma_safe_move_outcome(p, i);
    let c0 = i / 7;
    let q = p.spec_play(c0);
    if q.spec_stones() < 42 {
        lemma_draw_one_cell_left(q);
    }
    lemma_best_child_lower(p, 7, c0);
}

/// When every legal move hands the opponent an immediate win, the
/// opponent wins with his next stone: the value is a loss two stones
/// out.
proof fn lemma_no_safe_moves_value(p: ConnectFour)
    requires
        p.wf(),
        !p.spec_victory(),
        !has_four(p.spec_me()),
        !p.spec_can_win_now(),
        p.spec_stones() <= 40,
        forall|i: u64| i < 64 ==> !safe_landing(p.last.0, p.both.0, i),
    ensures
        game_value(p) == spec_score_from(p.spec_stones() as int + 2),
{
    let s = p.spec_stones() as int;
    assert forall|c: u64| c < 7 && p.spec_legal(c) implies -game_value(#[trigger] p.spec_play(c))
        == spec_score_from(s + 2) by {
        crate::lemma_play_wf(p, c);
        crate::lemma_play_no_new_four(p, c);
        crate::bitboard::lemma_landing_cell(p.both.0, c);
        lemma_unsafe_move_gives_win(p, c);
        lemma_immediate_win_value(p.spec_play(c));
    }
    lemma_best_child_upper(p, 7, spec_score_from(s + 2));
    lemma_exists_open_column(p);
    let c0 = choose|c: u64| c < 7 && #[trigger] p.spec_legal(c);
    lemma_best_child_lower(p, 7, c0);
}

/// With a single empty cell left, the one move there is always safe: it
/// fills the board, so the opponent never replies.
proof fn lemma_lone_landing_safe(p: ConnectFour)
    requires
        p.wf(),
        p.spec_stones() == 41,
    ensures
        exists|i: u64| i < 64 && #[trigger] safe_landing(p.last.0, p.both.0, i),
{
    let o = p.both.0;
    let m = p.last.0;
    lemma_exists_open_column(p);
    let c0 = choose|c: u64| c < 7 && #[trigger] p.spec_legal(c);
    crate::bitboard::lemma_landing_cell(o, c0);
    let i0 = landing_index(o, c0);
    assert(i0 % 7 == crate::bitboard::landing_row(o, c0) && i0 / 7 == c0) by (nonlinear_arith)
        requires
            i0 == 7 * c0 + crate::bitboard::landing_row(o, c0),
            c0 < 7,
            crate::bitboard::landing_row(o, c0) < 7,
    ;
    assert forall|t: u64|
        t < 64 && crate::bitboard::in_field(t) && t % 7 == crate::bitboard::landing_row(o, t / 7)
            && is_winning_cell(m, t) implies t == i0 by {
        if t != i0 {
            vstd::arithmetic::div_mod::lemma_fundamental_div_mod(t as int, 7);
            assert(!bit_set(o, t));
            crate::bitboard::lemma_pop_missing_two(o, i0, t);
        }
    }
    if crate::bitboard::in_field((i0 + 1) as u64) {
        crate::bitboard::lemma_no_floating_stone(o, i0);
        crate::bitboard::lemma_pop_missing_two(o, i0, (i0 + 1) as u64);
    }
    assert(safe_landing(m, o, i0));
}

/// A position with a move that does not hand the opponent an immediate
/// win survives at least until the opponent's second stone.
proof fn lemma_safe_move_value_lower(p: ConnectFour, i: u64)
    requires
        p.wf(),
        !p.spec_victory(),
        !has_four(p.spec_me()),
        !p.spec_can_win_now(),
        p.spec_stones() < 42,
        safe_landing(p.last.0, p.both.0, i),
        i < 64,
    ensures
        game_value(p) >= spec_score_from(p.spec_stones() as int + 4),
{
    let s = p.spec_stones() as int;
    crate::lemma_safe_move_outcome(p, i);
    let q = p.spec_play(i / 7);
    crate::bitboard::lemma_pop_bound(q.both.0);
    if q.spec_stones() < 42 {
        lemma_value_upper_no_win(q);
    }
    lemma_best_child_lower(p, 7, i / 7);
}

/// A slow minimax without pruning: the plain recursive reading of
/// [`game_value`], usable as a reference for positions close to the end
/// of the game.
pub fn reference_score(game: &ConnectFour) -> (r: i8)
    requires
        game.wf(),
    ensures
        r as int == game_value(*game),
        -100 <= r as int <= 100,
    decreases 42 - game.spec_stones(),
{
    if game.is_victory() {
        return score_from_num_stones(game.stones() as i8);
    }
    let stones = game.stones();
    if stones == 42 {
        return 0;
    }
    let mut best: i8 = -100;
    let mut c: u8 = 0;
    while c < 7
        invariant
            game.wf(),
            !game.spec_victory(),
            game.spec_stones() < 42,
            c <= 7,
            best as int == best_child_value(*game, c as int),
            -100 <= best as int <= 100,
        decreases 7 - c,
    {
        if game.is_legal_move(Column(c)) {
            let mut child = *game;
            child.play(Column(c));
            proof {
                lemma_pop_bound(child.both.0);
            }
            let candidate = -reference_score(&child);
            if candidate > best {
                best = candidate;
            }
        }
        c = c + 1;
    }
    best
}

/// The width of the window a score can still lie in, for the bisection's
/// progress measure; zero once the window has collapsed or overshot.
pub open spec fn window_span(min: int, max: int) -> int {
    if max >= min {
        max - min
    } else {
        0
    }
}

/// The transposition table a solver may rely on: well formed, with every
/// stored score small enough that search arithmetic on it stays in
/// bounds.
pub open spec fn table_ok(t: TranspositionTable) -> bool {
    &&& t.wf()
    &&& forall|j: int| 0 <= j < t.scores.len() ==> -23 <= #[trigger] t.scores[j] <= 23
}

/// Every hit of the table is an upper bound on the value of the position
/// it answers for: the search stores refined upper bounds, and by the
/// Chinese-remainder layout of the table no two well-formed positions
/// ever share a slot and a partial key.
pub open spec fn table_sound(t: TranspositionTable) -> bool {
    forall|q: ConnectFour|
        q.wf() && (#[trigger] t.spec_lookup((q.spec_encode()) as u64)) is Some ==> game_value(q)
            <= t.spec_lookup((q.spec_encode()) as u64).unwrap()
}

/// A table of empty slots answers for no position.
proof fn lemma_fresh_table_sound(t: TranspositionTable)
    requires
        t.wf(),
        forall|j: int|
            0 <= j < t.keys.len() ==> t.keys[j] == crate::transposition_table::EMPTY_SLOT,
    ensures
        table_sound(t),
{
    assert forall|q: ConnectFour|
        q.wf() && (#[trigger] t.spec_lookup((q.spec_encode()) as u64)) is Some implies game_value(
        q,
    ) <= t.spec_lookup((q.spec_encode()) as u64).unwrap() by {
        let key = (q.spec_encode()) as u64;
        vstd::arithmetic::div_mod::lemma_mod_bound(key as int, t.keys.len() as int);
        vstd::arithmetic::div_mod::lemma_mod_bound(key as int, 0x100000000);
        assert(t.keys[t.spec_index(key)] == crate::transposition_table::EMPTY_SLOT);
    }
}

/// Storing an upper bound for a well-formed position keeps the table
/// sound: a later hit on the written slot identifies the very same
/// position.
proof fn lemma_put_keeps_sound(
    pre: TranspositionTable,
    post: TranspositionTable,
    p: ConnectFour,
    bound: i8,
)
    requires
        pre.wf(),
        table_sound(pre),
        p.wf(),
        game_value(p) <= bound,
        post.keys@ == pre.keys@.update(
            pre.spec_index((p.spec_encode()) as u64),
            (TranspositionTable::spec_partial((p.spec_encode()) as u64)) as u64,
        ),
        post.scores@ == pre.scores@.update(pre.spec_index((p.spec_encode()) as u64), bound),
    ensures
        table_sound(post),
{
    let key = (p.spec_encode()) as u64;
    let idx = pre.spec_index(key);
    vstd::arithmetic::div_mod::lemma_mod_bound(key as int, pre.keys.len() as int);
    assert forall|q: ConnectFour|
        q.wf() && (#[trigger] post.spec_lookup((q.spec_encode()) as u64)) is Some implies
        game_value(q) <= post.spec_lookup((q.spec_encode()) as u64).unwrap() by {
        let qkey = (q.spec_encode()) as u64;
        vstd::arithmetic::div_mod::lemma_mod_bound(qkey as int, pre.keys.len() as int);
        if post.spec_index(qkey) == idx {
            // The hit reads the slot just written: slot index and partial
            // key agree, so the keys agree, so the positions agree.
            vstd::arithmetic::div_mod::lemma_mod_bound(qkey as int, 0x100000000);
            vstd::arithmetic::div_mod::lemma_mod_bound(key as int, 0x100000000);
            crate::lemma_encode_bound(p);
            crate::lemma_encode_bound(q);
            crate::transposition_table::lemma_partial_key_identifies(
                qkey,
                key,
                pre.keys.len() as int,
            );
            crate::lemma_encode_injective(q, p);
        } else {
            assert(pre.spec_lookup(qkey) == post.spec_lookup(qkey));
        }
    }
}

/// A column of the mask word holds a landing cell.
pub open spec fn col_in_mask(w: u64, c: u64) -> bool {
    exists|i: u64| i < 64 && i / 7 == c && bit_set(w, i)
}

/// Some entry of the explorer considers this column.
pub open spec fn col_listed(entries: Seq<(u8, u32, ConnectFour)>, c: u64) -> bool {
    exists|k: int| 0 <= k < entries.len() && entries[k].0 == c
}

/// An explorer entry fits its position: a legal column, the position it
/// reaches, and that position sound to search.
pub open spec fn entry_ok(e: (u8, u32, ConnectFour), p: ConnectFour) -> bool {
    &&& e.0 < 7
    &&& p.spec_legal(e.0 as u64)
    &&& e.2 == p.spec_play(e.0 as u64)
    &&& child_searchable(e.2, p)
}

/// The score formula never prefers an earlier final stone.
proof fn lemma_score_from_monotone(a: int, b: int)
    requires
        0 <= a <= b,
    ensures
        spec_score_from(a) <= spec_score_from(b),
{
    vstd::arithmetic::div_mod::lemma_div_is_ordered(42 - b, 42 - a, 2);
    if a <= 42 < b {
        vstd::arithmetic::div_mod::lemma_div_is_ordered(0, 42 - a, 2);
        vstd::arithmetic::div_mod::lemma_div_is_ordered(0, b - 42, 2);
    }
    if b <= 42 {
    } else if a > 42 {
        vstd::arithmetic::div_mod::lemma_div_is_ordered(a - 42, b - 42, 2);
    }
}

/// Score of the position with alpha-beta pruning.
///
/// Assumes that the position cannot be won in a single move and is not a
/// won position already.
///
/// Alpha is a lower bound on what the current player can expect, beta an
/// upper bound: a result at or below alpha is an upper bound on the true
/// score, a result at or above beta a lower bound, and anything strictly
/// in between is the true score itself. The transposition table caches
/// upper bounds between calls; every stored bound really bounds the
/// value of the position whose key hits it, and stays small enough that
/// the search arithmetic never overflows.
#[verifier::loop_isolation(false)]
#[verifier::rlimit(100)]
fn alpha_beta(game: &ConnectFour, alpha: i8, beta: i8, cached_beta: &mut TranspositionTable) -> (r:
    i8)
    requires
        game.wf(),
        !game.spec_victory(),
        !has_four(game.spec_me()),
        !game.spec_can_win_now(),
        -23 <= alpha < beta <= 23,
        table_ok(*old(cached_beta)),
        table_sound(*old(cached_beta)),
    ensures
        table_ok(*final (cached_beta)),
        table_sound(*final (cached_beta)),
        final (cached_beta).keys.len() == old(cached_beta).keys.len(),
        -23 <= r as int <= 23,
        r <= alpha ==> game_value(*game) <= r as int,
        r >= beta ==> game_value(*game) >= r as int,
        alpha < r < beta ==> r as int == game_value(*game),
        r <= alpha <==> game_value(*game) <= alpha,
        (forall|i: u64| i < 64 ==> !safe_landing(game.last.0, game.both.0, i))
            ==> *final (cached_beta) == *old(cached_beta),
        (forall|i: u64| i < 64 ==> !safe_landing(game.last.0, game.both.0, i))
            && game.spec_stones() <= 40 ==> r as int == spec_score_from(
            game.spec_stones() as int + 2,
        ),
        (exists|i: u64| i < 64 && #[trigger] safe_landing(game.last.0, game.both.0, i))
            && game.spec_stones() >= 40 ==> r == 0,
    decreases 42 - game.spec_stones(),
{
    let ghost value = game_value(*game);
    let ghost alpha0 = alpha as int;
    let ghost beta0 = beta as int;
    let mut alpha = alpha;
    let mut beta = beta;
    proof {
        lemma_pop_bound(game.both.0);
    }

    let possibilities = game.non_loosing_moves_impl();
    if possibilities.is_empty() {
        // If there is no way for the current player not to lose, the
        // opponent wins with his next stone.
        proof {
            assert forall|i: u64| i < 64 implies !safe_landing(game.last.0, game.both.0, i) by {
                crate::bitboard::lemma_zero_bit(i);
            }
            if game.spec_stones() == 41 {
                // A lone landing cell is always safe, so the mask cannot
                // be empty here.
                lemma_lone_landing_safe(*game);
            } else if game.spec_stones() <= 40 {
                lemma_no_safe_moves_value(*game);
            }
        }
        return score_from_num_stones(game.stones() as i8 + 2);
    }
    proof {
        crate::bitboard::lemma_nonzero_has_bit(possibilities.0);
    }
    let ghost jsafe = choose|i: u64| i < 64 && bit_set(possibilities.0, i);
    proof {
        assert(safe_landing(game.last.0, game.both.0, jsafe));
        crate::bitboard::lemma_pop_missing_bit(game.both.0, jsafe);
    }
    let stones = game.stones();

    // Check for draw: only two empty cells remain and nobody can win
    // with the next stone.
    if stones >= 42 - 2 {
        proof {
            lemma_late_draw(*game, jsafe);
        }
        return 0;
    }
    // The opponent cannot win within one move either, which gives a
    // lower bound on the score.
    let lower = score_from_num_stones(stones as i8 + 4);
    proof {
        lemma_safe_move_value_lower(*game, jsafe);
    }
    if lower > alpha {
        alpha = lower;
    }
    if alpha >= beta {
        return alpha;
    }
    // We may also find an upper bound in the cache. If not, we use the
    // fact that we cannot win with our next stone, which puts the
    // fastest possible win at least three stones away.
    let cached = cached_beta.get(game.encode());
    let upper_bound_beta = match cached {
        Some(cached_score) => {
            proof {
                assert(cached_beta.spec_lookup((game.spec_encode()) as u64) is Some);
                assert(value <= cached_score as int);
            }
            cached_score
        },
        None => -score_from_num_stones(stones as i8 + 3),
    };
    proof {
        if cached is None {
            lemma_value_upper_no_win(*game);
        }
        assert(value <= upper_bound_beta as int);
    }
    if upper_bound_beta < beta {
        beta = upper_bound_beta;
    }
    if alpha >= beta {
        return beta;
    }
    let mut move_explorer = MoveExplorer::new();
    let mut col: u8 = 0;
    while col < 7
        invariant
            col <= 7,
            move_explorer.spec_entries().len() <= col,
            forall|k: int|
                0 <= k < move_explorer.spec_entries().len() ==> entry_ok(
                    #[trigger] move_explorer.spec_entries()[k],
                    *game,
                ),
            forall|c: u64|
                c < col && #[trigger] col_in_mask(possibilities.0, c) ==> col_listed(
                    move_explorer.spec_entries(),
                    c,
                ),
        decreases 7 - col,
    {
        if possibilities.contains(col) {
            proof {
                let i = choose|i: u64| i < 64 && i / 7 == col && bit_set(possibilities.0, i);
                crate::lemma_safe_move_outcome(*game, i);
            }
            let ghost before = move_explorer.spec_entries();
            move_explorer.add(col, game);
            proof {
                assert forall|c: u64|
                    c < col + 1 && #[trigger] col_in_mask(possibilities.0, c) implies col_listed(
                    move_explorer.spec_entries(),
                    c,
                ) by {
                    let entries = move_explorer.spec_entries();
                    if c == col as u64 {
                        assert(entries[entries.len() - 1].0 == c);
                    } else {
                        let k = choose|k: int| 0 <= k < before.len() && before[k].0 == c;
                        assert(entries[k].0 == c);
                    }
                }
            }
        } else {
            proof {
                assert(!col_in_mask(possibilities.0, col as u64));
            }
        }
        col = col + 1;
    }
    let ghost unsorted = move_explorer.spec_entries();
    move_explorer.sort();

    // We play the positions which are worst for our opponent first.
    let children = move_explorer.next_positions();
    proof {
        let entries = move_explorer.spec_entries();
        assert forall|k: int| 0 <= k < entries.len() implies entry_ok(
            #[trigger] entries[k],
            *game,
        ) by {
            assert(entries.contains(entries[k]));
            assert(unsorted.to_multiset().count(entries[k]) > 0);
            assert(unsorted.contains(entries[k]));
        }
        assert forall|c: u64| #[trigger] col_in_mask(possibilities.0, c) implies col_listed(
            entries,
            c,
        ) by {
            let k = choose|k: int| 0 <= k < unsorted.len() && unsorted[k].0 == c;
            assert(unsorted.contains(unsorted[k]));
            assert(entries.to_multiset().count(unsorted[k]) > 0);
            assert(entries.contains(unsorted[k]));
            let k2 = choose|k2: int| 0 <= k2 < entries.len() && entries[k2] == unsorted[k];
            assert(entries[k2].0 == c);
        }
    }
    let ghost entries = move_explorer.spec_entries();
    let mut idx: usize = 0;
    while idx < children.len()
        invariant
            table_ok(*cached_beta),
            table_sound(*cached_beta),
            cached_beta.keys.len() == old(cached_beta).keys.len(),
            -23 <= alpha < beta <= 23,
            alpha0 <= alpha as int,
            beta as int <= beta0,
            spec_score_from(game.spec_stones() as int + 4) <= alpha as int,
            alpha as int > alpha0 ==> alpha as int <= value,
            (beta as int) < beta0 ==> value <= beta as int,
            idx <= children.len(),
            forall|k: int| 0 <= k < idx ==> -game_value(#[trigger] children@[k]) <= alpha as int,
        decreases children.len() - idx,
    {
        let position = children[idx];
        proof {
            assert(entry_ok(entries[idx as int], *game));
            lemma_pop_bound(position.both.0);
        }
        let ghost c = entries[idx as int].0 as u64;
        // Score from the perspective of the current player is the
        // negative of the opponent's.
        let child_result = alpha_beta(&position, -beta, -alpha, cached_beta);
        let score = -child_result;
        proof {
            lemma_best_child_lower(*game, 7, c);
        }
        // Prune the exploration if we found a move better than what we
        // were looking for.
        if score >= beta {
            proof {
                assert(child_result <= -beta);
                assert(game_value(position) <= child_result as int);
                assert(value >= score as int);
            }
            return score;
        }
        // We only need to search for positions which are better than the
        // best so far.
        if score > alpha {
            proof {
                assert(-beta < child_result < -alpha);
                assert(child_result as int == game_value(position));
            }
            alpha = score;
        } else {
            proof {
                if child_result >= -alpha {
                    assert(game_value(position) >= child_result as int);
                } else {
                    assert(child_result as int == game_value(position));
                }
                assert(-game_value(position) <= alpha as int);
            }
        }
        idx = idx + 1;
    }
    proof {
        // Every legal move was either explored, or excluded by the mask
        // because it hands the opponent an immediate win, which the
        // raised lower bound already covers.
        let s = game.spec_stones() as int;
        assert forall|c: u64| c < 7 && game.spec_legal(c) implies -game_value(
            #[trigger] game.spec_play(c),
        ) <= alpha as int by {
            if col_in_mask(possibilities.0, c) {
                let k = choose|k: int| 0 <= k < entries.len() && entries[k].0 == c;
                assert(entry_ok(entries[k], *game));
                assert(children@[k] == game.spec_play(c));
                assert(-game_value(children@[k]) <= alpha as int);
            } else {
                crate::bitboard::lemma_landing_cell(game.both.0, c);
                let i = landing_index(game.both.0, c);
                assert(i % 7 == crate::bitboard::landing_row(game.both.0, c) && i / 7 == c)
                    by (nonlinear_arith)
                    requires
                        i == 7 * c + crate::bitboard::landing_row(game.both.0, c),
                        c < 7,
                        crate::bitboard::landing_row(game.both.0, c) < 7,
                ;
                assert(!bit_set(possibilities.0, i));
                assert(!safe_landing(game.last.0, game.both.0, i));
                lemma_unsafe_move_gives_win(*game, c);
                crate::lemma_play_wf(*game, c);
                crate::lemma_play_no_new_four(*game, c);
                lemma_immediate_win_value(game.spec_play(c));
                lemma_score_from_monotone(s + 2, s + 4);
            }
        }
        lemma_best_child_upper(*game, 7, alpha as int);
        assert(value <= alpha as int);
    }
    // Save the refined upper bound for the position.
    let ghost pre = *cached_beta;
    let key = game.encode();
    cached_beta.put(key, alpha);
    proof {
        assert forall|j: int| 0 <= j < cached_beta.scores.len() implies -23
            <= #[trigger] cached_beta.scores[j] <= 23 by {
            assert(cached_beta.scores@ == pre.scores@.update(pre.spec_index(key), alpha));
            if j != pre.spec_index(key) {
                assert(cached_beta.scores[j] == pre.scores[j]);
            }
        }
        lemma_put_keeps_sound(pre, *cached_beta, *game, alpha);
    }
    alpha
}

/// What the solver's opening book answers for a position: its stored
/// score where the position falls below the book's cutoff and is listed,
/// nothing otherwise.
pub open spec fn book_answer(book: OpeningBook, game: ConnectFour) -> Option<i8> {
    if game.spec_stones() < book.cutoff && book.spec_contains(game.spec_encode() as u64) {
        Some(book.spec_score_of(game.spec_encode() as u64))
    } else {
        None
    }
}

/// The book keeps its promise: it lists every well-formed position below
/// its cutoff, and stores the perfect-play value for it. A generated
/// table has this by construction; a solver carrying such a book answers
/// every position with the perfect-play value, book hit or not.
pub open spec fn book_correct(book: OpeningBook) -> bool {
    forall|q: ConnectFour|
        q.wf() && q.spec_stones() < book.cutoff ==> #[trigger] book.spec_contains(
            (q.spec_encode()) as u64,
        ) && book.spec_score_of((q.spec_encode()) as u64) as int == game_value(q)
}

/// A position the solver accepts: well formed, and the side to move does
/// not already hold four in a row, which no play from an unfinished game
/// can produce.
pub open spec fn scoreable(game: ConnectFour) -> bool {
    game.wf() && (game.spec_victory() || !has_four(game.spec_me()))
}

/// The lowest value among the positions reached by a sequence of moves
/// from `p`; higher than any real value while no move was examined.
pub open spec fn choices_min(p: ConnectFour, cols: Seq<Column>) -> int
    decreases cols.len(),
{
    if cols.len() == 0 {
        127
    } else {
        let v = game_value(p.spec_play(cols.last().0 as u64));
        let rest = choices_min(p, cols.drop_last());
        if v < rest {
            v
        } else {
            rest
        }
    }
}

/// The moves of the sequence whose reached position scores the minimum,
/// in their original order.
pub open spec fn choices_best(p: ConnectFour, cols: Seq<Column>) -> Seq<Column>
    decreases cols.len(),
{
    if cols.len() == 0 {
        Seq::empty()
    } else {
        let v = game_value(p.spec_play(cols.last().0 as u64));
        let rest = choices_min(p, cols.drop_last());
        if v < rest {
            seq![cols.last()]
        } else if v == rest {
            choices_best(p, cols.drop_last()).push(cols.last())
        } else {
            choices_best(p, cols.drop_last())
        }
    }
}

/// No examined move scores below the running minimum.
proof fn lemma_choices_min_le(p: ConnectFour, cols: Seq<Column>, j: int)
    requires
        0 <= j < cols.len(),
    ensures
        game_value(p.spec_play(cols[j].0 as u64)) >= choices_min(p, cols),
    decreases cols.len(),
{
    if j < cols.len() - 1 {
        lemma_choices_min_le(p, cols.drop_last(), j);
        assert(cols.drop_last()[j] == cols[j]);
    }
}

/// The collected moves are exactly those whose reached position scores
/// the minimum.
proof fn lemma_choices_best_member(p: ConnectFour, cols: Seq<Column>)
    ensures
        forall|c: Column|
            choices_best(p, cols).contains(c) <==> (cols.contains(c) && game_value(
                p.spec_play(c.0 as u64),
            ) == choices_min(p, cols)),
    decreases cols.len(),
{
    if cols.len() == 0 {
        assert forall|c: Column|
            choices_best(p, cols).contains(c) <==> (cols.contains(c) && game_value(
                p.spec_play(c.0 as u64),
            ) == choices_min(p, cols)) by {
            assert(!choices_best(p, cols).contains(c));
            assert(!cols.contains(c));
        }
    } else {
        let rest = cols.drop_last();
        let lastc = cols.last();
        let v = game_value(p.spec_play(lastc.0 as u64));
        let m = choices_min(p, rest);
        lemma_choices_best_member(p, rest);
        assert(cols[cols.len() - 1] == lastc);
        assert(cols.contains(lastc));
        // A member of the whole list is the last move or a member of the
        // rest, and every member of the rest is one of the whole list.
        assert forall|c: Column| #[trigger] cols.contains(c) implies rest.contains(c) || c
            == lastc by {
            let j = choose|j: int| 0 <= j < cols.len() && cols[j] == c;
            if j < cols.len() - 1 {
                assert(rest[j] == c);
            }
        }
        assert forall|c: Column| #[trigger] rest.contains(c) implies cols.contains(c) by {
            let j = choose|j: int| 0 <= j < rest.len() && rest[j] == c;
            assert(cols[j] == c);
        }
        if v < m {
            assert(choices_best(p, cols) == seq![lastc]);
            assert forall|c: Column| #[trigger] choices_best(p, cols).contains(c) implies c
                == lastc by {
                let j = choose|j: int|
                    0 <= j < choices_best(p, cols).len() && choices_best(p, cols)[j] == c;
            }
            assert(choices_best(p, cols)[0] == lastc);
            assert(choices_best(p, cols).contains(lastc));
            // Nothing in the rest reaches the new, lower minimum.
            assert forall|c: Column|
                #[trigger] rest.contains(c) implies game_value(p.spec_play(c.0 as u64)) != v by {
                let j = choose|j: int| 0 <= j < rest.len() && rest[j] == c;
                lemma_choices_min_le(p, rest, j);
            }
        } else if v == m {
            let prev = choices_best(p, rest);
            assert(choices_best(p, cols) == prev.push(lastc));
            assert forall|c: Column| #[trigger] choices_best(p, cols).contains(c) implies
                prev.contains(c) || c == lastc by {
                let j = choose|j: int|
                    0 <= j < choices_best(p, cols).len() && choices_best(p, cols)[j] == c;
                if j < prev.len() {
                    assert(prev[j] == c);
                }
            }
            assert forall|c: Column| #[trigger] prev.contains(c) implies choices_best(
                p,
                cols,
            ).contains(c) by {
                let j = choose|j: int| 0 <= j < prev.len() && prev[j] == c;
                assert(choices_best(p, cols)[j] == c);
            }
            assert(choices_best(p, cols)[prev.len() as int] == lastc);
            assert(choices_best(p, cols).contains(lastc));
        } else {
            assert(choices_best(p, cols) == choices_best(p, rest));
            assert(choices_min(p, cols) == m);
            assert(v != m);
        }
        assert forall|c: Column|
            choices_best(p, cols).contains(c) <==> (cols.contains(c) && game_value(
                p.spec_play(c.0 as u64),
            ) == choices_min(p, cols)) by {
            let vc = game_value(p.spec_play(c.0 as u64));
            assert(choices_best(p, rest).contains(c) <==> (rest.contains(c) && vc == m));
            if cols.contains(c) {
                assert(rest.contains(c) || c == lastc);
            }
        }
    }
}

/// The running minimum over the legal moves is the least value among the
/// reachable positions.
proof fn lemma_choices_min_vs_worst(p: ConnectFour, n: int)
    requires
        p.wf(),
        p.spec_stones() < 42,
        0 <= n <= 7,
    ensures
        spec_legal_cols(p, n).len() == 0 ==> choices_min(p, spec_legal_cols(p, n)) == 127
            && worst_child_value(p, n) == 100,
        spec_legal_cols(p, n).len() > 0 ==> choices_min(p, spec_legal_cols(p, n))
            == worst_child_value(p, n),
    decreases n,
{
    if n > 0 {
        lemma_choices_min_vs_worst(p, n - 1);
        let cols = spec_legal_cols(p, n);
        if p.spec_legal((n - 1) as u64) {
            assert(cols.drop_last() =~= spec_legal_cols(p, n - 1));
            assert(cols.last() == Column((n - 1) as u8));
            crate::lemma_play_wf(p, (n - 1) as u64);
            lemma_value_bounds(p.spec_play((n - 1) as u64));
        } else {
            assert(cols =~= spec_legal_cols(p, n - 1));
        }
    }
}

/// The moves [`Solver::best_moves`] reports, for a solver whose book is
/// empty or correct, are exactly the legal moves whose reached position
/// leaves the opponent the lowest value.
pub proof fn lemma_best_moves_are_argmin(p: ConnectFour)
    requires
        p.wf(),
        !p.spec_victory(),
        p.spec_stones() < 42,
    ensures
        forall|c: Column|
            choices_best(p, spec_legal_cols(p, 7)).contains(c) <==> (c.0 < 7 && p.spec_legal(
                c.0 as u64,
            ) && game_value(p.spec_play(c.0 as u64)) == worst_child_value(p, 7)),
{
    lemma_exists_open_column(p);
    let c0 = choose|c: u64| c < 7 && #[trigger] p.spec_legal(c);
    crate::lemma_legal_cols_complete(p, c0, 7);
    crate::lemma_legal_cols_elems(p, 7);
    lemma_choices_min_vs_worst(p, 7);
    lemma_choices_best_member(p, spec_legal_cols(p, 7));
    assert forall|c: Column|
        choices_best(p, spec_legal_cols(p, 7)).contains(c) <==> (c.0 < 7 && p.spec_legal(
            c.0 as u64,
        ) && game_value(p.spec_play(c.0 as u64)) == worst_child_value(p, 7)) by {
        if c.0 < 7 && p.spec_legal(c.0 as u64) {
            crate::lemma_legal_cols_complete(p, c.0 as u64, 7);
            assert(spec_legal_cols(p, 7).contains(Column(c.0)));
        }
        if spec_legal_cols(p, 7).contains(c) {
            let j = choose|j: int|
                0 <= j < spec_legal_cols(p, 7).len() && spec_legal_cols(p, 7)[j] == c;
        }
    }
}

/// Reusing the same solver instead of repeatedly running [`score`] to
/// calculate similar positions may have performance benefits, because the
/// transposition table is kept.
pub struct Solver {
    /// Cached upper bounds of searched positions.
    pub transposition_table: TranspositionTable,
    /// Scores of positions with few stones, where a full search is most
    /// expensive. The default solver carries an empty book; one parsed
    /// from a generated table can be supplied instead.
    pub book: OpeningBook,
}

impl Solver {
    /// The solver's parts are usable: the table a cache of true upper
    /// bounds, the book a sorted score table.
    pub open spec fn wf(self) -> bool {
        &&& table_ok(self.transposition_table)
        &&& table_sound(self.transposition_table)
        &&& self.book.wf()
    }

    /// A solver with a large empty transposition table and no opening
    /// book.
    pub fn new() -> (r: Solver)
        ensures
            r.wf(),
            r.book.keys.len() == 0,
            r.book.cutoff == 0,
    {
        // 64 bit per entry; a prime close to 16777213 multiplied by 8
        // byte is close to 128 MiB.
        let transposition_table = TranspositionTable::new(16777213);
        proof {
            lemma_fresh_table_sound(transposition_table);
        }
        Solver { transposition_table, book: OpeningBook::empty() }
    }

    /// A solver that answers positions below the book's cutoff from the
    /// book.
    pub fn with_book(book: OpeningBook) -> (r: Solver)
        requires
            book.wf(),
        ensures
            r.wf(),
            r.book == book,
    {
        let transposition_table = TranspositionTable::new(16777213);
        proof {
            lemma_fresh_table_sound(transposition_table);
        }
        Solver { transposition_table, book }
    }

    /// Calculates the score of a Connect Four game. The score is set up
    /// so that always picking the move with the lowest score results in
    /// perfect play: winning as fast as possible, drawing, or losing as
    /// late as possible.
    ///
    /// A positive score means the player who can put in the next stone
    /// can win, and positions which can be won faster are scored higher:
    /// the score is 1 if the current player can win with his last stone,
    /// 2 with his second to last, and so on. A score of zero means the
    /// game will end in a draw if both players play perfectly. A negative
    /// score means the opponent is winning: -1 with his last stone, -2
    /// with his second to last, and so on.
    pub fn score(&mut self, game: &ConnectFour) -> (r: i8)
        requires
            old(self).wf(),
            scoreable(*game),
        ensures
            final (self).wf(),
            final (self).book == old(self).book,
            book_answer(old(self).book, *game) is Some ==> r == book_answer(
                old(self).book,
                *game,
            ).unwrap(),
            book_answer(old(self).book, *game) is None ==> r as int == game_value(*game),
            book_correct(old(self).book) ==> r as int == game_value(*game),
            book_answer(old(self).book, *game) is None ==> -23 <= r as int <= 23,
            -23 <= r as int <= 23,
    {
        let cached = precalculated_score(&self.book, game);
        proof {
            if book_correct(self.book) && game.spec_stones() < self.book.cutoff {
                assert(self.book.spec_contains((game.spec_encode()) as u64));
            }
        }
        match cached {
            Some(score) => score,
            None => self.score_without_precalculated(game),
        }
    }

    /// The search behind [`Self::score`]: terminal positions and
    /// immediate wins are scored directly, everything else through a
    /// null-window bisection over alpha-beta.
    fn score_without_precalculated(&mut self, game: &ConnectFour) -> (r: i8)
        requires
            old(self).wf(),
            scoreable(*game),
        ensures
            final (self).wf(),
            final (self).book == old(self).book,
            game.spec_victory() ==> r as int == spec_score_from(game.spec_stones() as int),
            !game.spec_victory() && game.spec_can_win_now() ==> r as int == -spec_score_from(
                game.spec_stones() as int + 1,
            ),
            (game.spec_victory() || game.spec_can_win_now()) ==> r as int == game_value(*game),
            r as int == game_value(*game),
            -23 <= r as int <= 23,
    {
        if game.is_victory() {
            return score_from_num_stones(game.stones() as i8);
        }
        // Check if we can win in the next move, because `alpha_beta`
        // assumes that the next move cannot win the game.
        if game.can_win_in_next_move() {
            proof {
                lemma_immediate_win_value(*game);
            }
            return -score_from_num_stones(game.stones() as i8 + 1);
        }
        let ghost value = game_value(*game);
        let stones = game.stones() as i8;
        let mut min = -((42 - stones) / 2);
        let mut max = (42 + 1 - stones) / 2;
        proof {
            // The initial window brackets the true value: nobody wins
            // before the opponent's next stone, nobody later than his
            // own next one would allow.
            lemma_pop_bound(game.both.0);
            if game.spec_stones() == 41 {
                lemma_draw_one_cell_left(*game);
            } else if game.spec_stones() == 42 {
            } else {
                lemma_value_lower(*game);
            }
            lemma_value_bounds(*game);
            assert(min as int <= value <= max as int);
        }

        // Iterative deepening: bisect the window of possible scores with
        // null-window probes until it collapses.
        while min < max
            invariant
                self.wf(),
                self.book == old(self).book,
                game.wf(),
                !game.spec_victory(),
                !has_four(game.spec_me()),
                !game.spec_can_win_now(),
                -23 <= min as int <= 23,
                -23 <= max as int <= 23,
                value == game_value(*game),
                min as int <= value <= max as int,
            decreases window_span(min as int, max as int),
        {
            let median = min + (max - min) / 2;
            let half_min = if min < 0 {
                -((-min) / 2)
            } else {
                min / 2
            };
            let half_max = max / 2;
            let alpha = if median <= 0 && half_min < median {
                // Explore the losing paths deeper.
                half_min
            } else if median >= 0 && half_max > median {
                // Explore the winning paths deeper.
                half_max
            } else {
                median
            };
            proof {
                assert(min <= alpha < max);
            }
            let result = alpha_beta(game, alpha, alpha + 1, &mut self.transposition_table);
            if result <= alpha {
                proof {
                    assert(game_value(*game) <= result as int);
                }
                max = result;
            } else {
                proof {
                    assert(result >= alpha + 1);
                    assert(game_value(*game) >= result as int);
                }
                min = result;
            }
        }
        min
    }

    /// The null-window walk of [`Self::score_without_precalculated`]
    /// narrows onto the perfect-play value, so the library's score is
    /// that value wherever no opening book interferes: zero exactly on
    /// the drawn positions, positive exactly where the side to move
    /// forces a win, the faster the higher.

    /// Fills `best_moves` with all the legal moves which have the best
    /// score.
    pub fn best_moves(&mut self, game: &ConnectFour, best_moves: &mut Vec<Column>)
        requires
            old(self).wf(),
            game.wf(),
        ensures
            final (self).wf(),
            game.spec_over() ==> *final (best_moves) == *old(best_moves),
            !game.spec_over() ==> final (best_moves)@.len() >= 1,
            !game.spec_over() ==> forall|j: int|
                0 <= j < final (best_moves)@.len() ==> (#[trigger] final (best_moves)@[j]).0 < 7
                    && game.spec_legal(final (best_moves)@[j].0 as u64),
            !game.spec_over() && (old(self).book.keys.len() == 0 || book_correct(
                old(self).book,
            )) ==> final (best_moves)@ == choices_best(*game, spec_legal_cols(*game, 7)),
    {
        if game.is_over() {
            return ;
        }
        let ghost scores_exact = self.book.keys.len() == 0 || book_correct(self.book);
        let mut min = i8::MAX;
        let legal = game.legal_moves();
        proof {
            crate::bitboard::lemma_pop_bound(game.both.0);
            crate::lemma_legal_cols_elems(*game, 7);
            lemma_exists_open_column(*game);
            let c0 = choose|c: u64| c < 7 && #[trigger] game.spec_legal(c);
            crate::lemma_legal_cols_complete(*game, c0, 7);
        }
        let mut k: usize = 0;
        while k < legal.len()
            invariant
                self.wf(),
                game.wf(),
                !game.spec_victory(),
                forall|j: int| 0 <= j < legal@.len() ==> (#[trigger] legal@[j]).0 < 7,
                forall|j: int|
                    0 <= j < legal@.len() ==> game.spec_legal((#[trigger] legal@[j]).0 as u64),
                k <= legal.len(),
                legal@.len() >= 1,
                legal@ == spec_legal_cols(*game, 7),
                self.book == old(self).book,
                k == 0 ==> min == 127,
                k >= 1 ==> best_moves@.len() >= 1,
                k >= 1 ==> forall|j: int|
                    0 <= j < best_moves@.len() ==> (#[trigger] best_moves@[j]).0 < 7
                        && game.spec_legal(best_moves@[j].0 as u64),
                scores_exact == (old(self).book.keys.len() == 0 || book_correct(old(self).book)),
                scores_exact ==> min as int == choices_min(*game, legal@.take(k as int)),
                k >= 1 && scores_exact ==> best_moves@ == choices_best(
                    *game,
                    legal@.take(k as int),
                ),
            decreases legal.len() - k,
        {
            let column = legal[k];
            let mut board = *game;
            board.play(column);
            proof {
                // The opponent of the new position is the old side to
                // move, who holds no premature four in a row.
                crate::lemma_play_flip_restores(*game, column.0 as u64);
                assert(board.spec_me() == game.last.0);
            }
            let score = self.score(&board);
            proof {
                assert(column == legal@[k as int]);
                assert(column.0 < 7 && game.spec_legal(column.0 as u64));
                if scores_exact {
                    // With no book in the way, or one that answers with
                    // the true values, each child's score is its
                    // perfect-play value, so the running minimum mirrors
                    // the fold over the examined moves.
                    if old(self).book.keys.len() == 0 {
                        assert(book_answer(old(self).book, board) is None);
                    }
                    assert(score as int == game_value(board));
                    assert(legal@.take(k + 1).drop_last() =~= legal@.take(k as int));
                    assert(legal@.take(k + 1).last() == column);
                    assert(board == game.spec_play(column.0 as u64));
                }
            }
            if score < min {
                min = score;
                best_moves.clear();
                best_moves.push(column);
                proof {
                    assert(best_moves@ =~= seq![column]);
                }
            } else if score == min {
                let ghost before_push = best_moves@;
                best_moves.push(column);
                proof {
                    assert forall|j: int| 0 <= j < best_moves@.len() implies (
                    #[trigger] best_moves@[j]).0 < 7 && game.spec_legal(
                        best_moves@[j].0 as u64,
                    ) by {
                        if j < before_push.len() {
                            assert(best_moves@[j] == before_push[j]);
                        } else {
                            assert(best_moves@[j] == column);
                        }
                    }
                }
            }
            k = k + 1;
        }
        proof {
            assert(legal@.take(legal@.len() as int) =~= legal@);
        }
    }
}

/// Calculates the score of a Connect Four game with a fresh solver; see
/// [`Solver::score`]. The score is set up so that always picking the
/// move with the lowest score results in perfect play: the returned
/// number is the perfect-play value of the position, zero exactly on the
/// drawn positions, positive exactly where the side to move forces a
/// win, and higher the fewer stones the win takes.
pub fn score(game: &ConnectFour) -> (r: i8)
    requires
        scoreable(*game),
    ensures
        r as int == game_value(*game),
        -23 <= r as int <= 23,
{
    Solver::new().score(game)
}

/// The number of stones that will still be played before the game ends,
/// seen from a position reached after `current_turn` stones whose score
/// is `score`: a draw fills the board, a winner stops as soon as his
/// remaining stones allow.
pub fn stones_to_end(current_turn: i8, score: i8) -> (r: i8)
    requires
        0 <= current_turn <= 42,
        -21 <= score <= 21,
    ensures
        r as int == spec_stones_to_end(current_turn as int, score as int),
{
    if score == 0 {
        return 42 - current_turn;
    }
    let magnitude = if score > 0 {
        score
    } else {
        -score
    };
    let remaining_stones_at_end = magnitude - 1;
    let remaining_stones_now = 42 / 2 - current_turn / 2;
    let stones_for_winner_to_throw = remaining_stones_now - remaining_stones_at_end;
    if score > 0 {
        stones_for_winner_to_throw * 2
    } else {
        (stones_for_winner_to_throw - 1) * 2 + 1
    }
}

/// The count behind [`stones_to_end`]: how many stones the winning player
/// still throws, doubled into plies, one less for the side not to move.
pub open spec fn spec_stones_to_end(current_turn: int, score: int) -> int {
    if score == 0 {
        42 - current_turn
    } else {
        let magnitude = if score > 0 {
            score
        } else {
            -score
        };
        let stones_for_winner_to_throw = (21 - current_turn / 2) - (magnitude - 1);
        if score > 0 {
            stones_for_winner_to_throw * 2
        } else {
            (stones_for_winner_to_throw - 1) * 2 + 1
        }
    }
}

} // verus!
