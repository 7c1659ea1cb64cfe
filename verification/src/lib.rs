//! A verified solver for the game of Connect Four.
//!
//! The board is packed into two 64-bit masks (see [`bitboard`]); a
//! [`ConnectFour`] value couples them into a single game state. The solver
//! computes the perfect-play score of a position with a null-window
//! alpha-beta search backed by a transposition table and an optional
//! opening book.

use vstd::prelude::*;
use vstd::string::StringSliceAdditionalSpecFns;

pub mod bitboard;
pub mod precalculated;
pub mod solver;
pub mod transposition_table;

pub use solver::{score, Solver};

use crate::bitboard::{
    bit_set, columns_contiguous, has_four, in_field, is_winning_cell, landing_index, pop64,
    possible_word, safe_landing, valid_mask, AllStones, NonLoosingMoves, PlayerStones,
};

verus! {

/// An integer ranging from 0 to 6 representing a column of the connect
/// four board.
#[derive(Clone, Copy, PartialEq, Eq, Structural, Debug)]
pub struct Column(pub u8);

impl Column {
    /// Column index ranges from 0 to 6.
    pub fn from_index(index: u8) -> (r: Column)
        requires
            index < 7,
        ensures
            r.0 == index,
    {
        Column(index)
    }

    /// Parse a column from its textual spelling: a string whose first
    /// byte is a digit from `1` (byte 49) to `7` (byte 55). Only digits
    /// from 1 to 7 count as valid moves.
    pub fn parse(source: &str) -> (r: Option<Column>)
        ensures
            r is Some <==> (source.spec_bytes().len() > 0 && 49 <= source.spec_bytes()[0] <= 55),
            r is Some ==> r.unwrap().0 + 49 == source.spec_bytes()[0],
    {
        let bytes = source.as_bytes();
        if bytes.len() > 0 {
            let b = bytes[0];
            if 49 <= b && b <= 55 {
                return Some(Column(b - 49));
            }
        }
        None
    }
}

/// State of a cell in a Connect Four board.
#[derive(Clone, Copy, PartialEq, Eq, Structural, Debug)]
pub enum Cell {
    /// The cell is not captured by either player.
    Empty,
    /// The cell holds a stone of player one, who placed the first stone.
    PlayerOne,
    /// The cell holds a stone of player two.
    PlayerTwo,
}

/// Implementation of the Connect Four game. The board is implemented as
/// two 64 bit masks, which allow for fast checking of winning conditions
/// and legal moves. Apart from being able to play Connect Four, this type
/// also features some utility functions which can help with
/// implementations of heuristics and solvers.
#[derive(Clone, Copy, PartialEq, Eq, Structural, Debug)]
pub struct ConnectFour {
    /// Bitboard encoding the stones of the player who inserted the last
    /// stone.
    pub last: PlayerStones,
    /// Bitboard encoding all cells containing stones, no matter the
    /// player.
    pub both: AllStones,
}

impl ConnectFour {
    /// The two masks describe a board that can arise in play: only
    /// playing-field bits, stones stacked from the bottom of each column,
    /// and the last mover's stones a subset of all stones.
    pub open spec fn wf(self) -> bool {
        &&& valid_mask(self.both.0)
        &&& columns_contiguous(self.both.0)
        &&& valid_mask(self.last.0)
        &&& self.last.0 & !self.both.0 == 0
    }

    /// Number of stones on the board.
    pub open spec fn spec_stones(self) -> nat {
        pop64(self.both.0)
    }

    /// The stones of the side to move.
    pub open spec fn spec_me(self) -> u64 {
        self.last.0 ^ self.both.0
    }

    /// The player who moved last has four in a row.
    pub open spec fn spec_victory(self) -> bool {
        has_four(self.last.0)
    }

    /// A stone can still land in column `c`.
    pub open spec fn spec_legal(self, c: u64) -> bool {
        !bit_set(self.both.0, (7 * c + 5) as u64)
    }

    /// The position reached by dropping a stone of the side to move into
    /// column `c`.
    pub open spec fn spec_play(self, c: u64) -> ConnectFour {
        let stone = 1u64 << landing_index(self.both.0, c);
        ConnectFour {
            last: PlayerStones(self.last.0 ^ (self.both.0 | stone)),
            both: AllStones(self.both.0 | stone),
        }
    }

    /// The canonical key of the position.
    pub open spec fn spec_encode(self) -> int {
        self.last.0 + self.both.0
    }

    /// The side to move has a landing cell that completes four in a row.
    pub open spec fn spec_can_win_now(self) -> bool {
        exists|i: u64|
            i < 64 && bit_set(possible_word(self.both.0), i) && is_winning_cell(self.spec_me(), i)
    }

    /// The game has ended: somebody won, or the board is full.
    pub open spec fn spec_over(self) -> bool {
        self.spec_victory() || self.spec_stones() == 42
    }

    /// Create an empty board.
    pub fn new() -> (r: ConnectFour)
        ensures
            r.last.0 == 0,
            r.both.0 == 0,
            r.wf(),
            r.spec_stones() == 0,
    {
        let r = ConnectFour { last: PlayerStones::new(), both: AllStones::new() };
        proof {
            lemma_empty_wf();
            crate::bitboard::lemma_pop_zero();
        }
        r
    }

    /// Inserts a stone for the current player. `true` if the move has been
    /// legal; on a full column the position is left unchanged.
    pub fn play(&mut self, column: Column) -> (r: bool)
        requires
            old(self).wf(),
            column.0 < 7,
        ensures
            final (self).wf(),
            r == old(self).spec_legal(column.0 as u64),
            !r ==> *final (self) == *old(self),
            r ==> *final (self) == old(self).spec_play(column.0 as u64),
            r ==> final (self).spec_stones() == old(self).spec_stones() + 1,
            r ==> final (self).last.0 == (old(self).last.0 ^ old(self).both.0) | (1u64
                << landing_index(old(self).both.0, column.0 as u64)),
    {
        // Let's check if the move is legal, otherwise return false.
        if self.both.is_full(column.0) {
            return false;
        }
        let ghost last0 = self.last.0;
        let ghost both0 = self.both.0;
        // Now we add a stone to the bitmask for both players.
        self.both.insert(column.0);
        // Flip players after adding the stone, so the stone is accounted
        // for the last player.
        self.last.flip(self.both);
        proof {
            lemma_play_masks(last0, both0, landing_index(both0, column.0 as u64));
        }
        true
    }

    /// The empty board.
    pub open spec fn spec_empty() -> ConnectFour {
        ConnectFour { last: PlayerStones(0), both: AllStones(0) }
    }

    /// Create a game state from a sequence of moves, each move
    /// represented as a digit from 1 to 7 standing for the column the
    /// player drops their stone into. Every move of the list must be a
    /// digit and legal when its turn comes.
    pub fn from_move_list(move_list: &str) -> (r: ConnectFour)
        requires
            spec_play_list(ConnectFour::spec_empty(), move_list.spec_bytes()) is Some,
        ensures
            Some(r) == spec_play_list(ConnectFour::spec_empty(), move_list.spec_bytes()),
            r.wf(),
    {
        let bytes = move_list.as_bytes();
        let mut game = ConnectFour::new();
        let mut i: usize = 0;
        proof {
            assert(bytes@.skip(0) =~= bytes@);
        }
        while i < bytes.len()
            invariant
                i <= bytes@.len(),
                game.wf(),
                spec_play_list(game, bytes@.skip(i as int)) == spec_play_list(
                    ConnectFour::spec_empty(),
                    bytes@,
                ),
                spec_play_list(ConnectFour::spec_empty(), bytes@) is Some,
            decreases bytes@.len() - i,
        {
            let b = bytes[i];
            let column = Column::from_index(b - 49);
            let ghost before = game;
            let played = game.play(column);
            proof {
                assert(bytes@.skip(i as int).drop_first() =~= bytes@.skip(i + 1));
                assert(played && game == before.spec_play((b - 49) as u64));
            }
            i = i + 1;
        }
        proof {
            assert(bytes@.skip(i as int) =~= Seq::<u8>::empty());
        }
        game
    }

    /// `true` if the column is not full.
    pub fn is_legal_move(&self, column: Column) -> (r: bool)
        requires
            column.0 < 7,
        ensures
            r == self.spec_legal(column.0 as u64),
    {
        !self.both.is_full(column.0)
    }

    /// All columns a stone can still land in, in ascending order.
    pub fn legal_moves(&self) -> (r: Vec<Column>)
        requires
            self.wf(),
        ensures
            r@ == spec_legal_cols(*self, 7),
    {
        let mut v: Vec<Column> = Vec::new();
        let mut c: u8 = 0;
        while c < 7
            invariant
                c <= 7,
                self.wf(),
                v@ == spec_legal_cols(*self, c as int),
            decreases 7 - c,
        {
            if self.is_legal_move(Column(c)) {
                v.push(Column(c));
            }
            c = c + 1;
            proof {
                assert(v@ =~= spec_legal_cols(*self, c as int));
            }
        }
        v
    }

    /// Heuristic used to decide which moves to explore first, in order to
    /// allow for better pruning of the search tree. Higher means better
    /// for the player who put in the last stone.
    pub fn heuristic(&self) -> (r: u32)
        requires
            self.wf(),
        ensures
            r == pop64(crate::bitboard::winning_word(self.last.0) & !self.both.0),
    {
        bitboard::heuristic(self.last, self.both)
    }

    /// What a cell of the board holds: nothing, or a stone of one of the
    /// players. Player one is whoever placed the very first stone, so the
    /// mover-complement mask holds player one's stones exactly when the
    /// stone count is odd.
    pub open spec fn spec_cell(self, row: int, column: int) -> Cell {
        let i = (7 * column + row) as u64;
        if !bit_set(self.both.0, i) {
            Cell::Empty
        } else if bit_set(self.last.0, i) {
            if self.spec_stones() % 2 == 1 {
                Cell::PlayerOne
            } else {
                Cell::PlayerTwo
            }
        } else {
            if self.spec_stones() % 2 == 1 {
                Cell::PlayerTwo
            } else {
                Cell::PlayerOne
            }
        }
    }

    /// Access any cell of the board and find out whether it is empty or
    /// holding a stone of player one or two.
    fn cell(&self, row: u8, column: u8) -> (r: Cell)
        requires
            self.wf(),
            row < 6,
            column < 7,
        ensures
            r == self.spec_cell(row as int, column as int),
    {
        if self.both.is_empty(row, column) {
            Cell::Empty
        } else if self.last.is_empty(row, column) {
            if self.stones() % 2 == 1 {
                Cell::PlayerTwo
            } else {
                Cell::PlayerOne
            }
        } else {
            if self.stones() % 2 == 1 {
                Cell::PlayerOne
            } else {
                Cell::PlayerTwo
            }
        }
    }

    /// Appends a text representation of the board to `out`: six rows top
    /// to bottom, each cell framed by `|` and drawn as `X` for player
    /// one, `O` for player two or a space, then a separator line and the
    /// column numbers.
    pub fn print_to(&self, out: &mut Vec<u8>)
        requires
            self.wf(),
        ensures
            final (out)@ == old(out)@ + spec_render(*self),
    {
        let ghost start = out@;
        let mut printed: u8 = 0;
        while printed < 6
            invariant
                self.wf(),
                printed <= 6,
                out@ == start + spec_rows_bytes(*self, printed as int),
            decreases 6 - printed,
        {
            let row = 5 - printed;
            let ghost row_start = out@;
            let mut column: u8 = 0;
            while column < 7
                invariant
                    self.wf(),
                    row == 5 - printed,
                    printed < 6,
                    column <= 7,
                    out@ == row_start + spec_row_cells(*self, row as int, column as int),
                decreases 7 - column,
            {
                out.push(124);
                match self.cell(row, column) {
                    Cell::PlayerOne => out.push(88),
                    Cell::PlayerTwo => out.push(79),
                    Cell::Empty => out.push(32),
                }
                column = column + 1;
                proof {
                    assert(out@ =~= row_start + spec_row_cells(
                        *self,
                        row as int,
                        column as int,
                    ));
                }
            }
            out.push(124);
            out.push(10);
            printed = printed + 1;
            proof {
                assert(out@ =~= start + spec_rows_bytes(*self, printed as int));
            }
        }
        let mut dashes: u8 = 0;
        while dashes < 15
            invariant
                dashes <= 15,
                out@ == start + spec_rows_bytes(*self, 6) + Seq::new(dashes as nat, |k: int| 45u8),
            decreases 15 - dashes,
        {
            out.push(45);
            dashes = dashes + 1;
            proof {
                assert(out@ =~= start + spec_rows_bytes(*self, 6) + Seq::new(
                    dashes as nat,
                    |k: int| 45u8,
                ));
            }
        }
        out.push(10);
        let mut digit: u8 = 0;
        while digit < 7
            invariant
                digit <= 7,
                out@ == start + spec_rows_bytes(*self, 6) + Seq::new(15, |k: int| 45u8) + seq![10u8]
                    + spec_number_row(digit as int),
            decreases 7 - digit,
        {
            out.push(32);
            out.push(49 + digit);
            digit = digit + 1;
            proof {
                assert(out@ =~= start + spec_rows_bytes(*self, 6) + Seq::new(15, |k: int| 45u8)
                    + seq![10u8] + spec_number_row(digit as int));
            }
        }
        out.push(10);
        proof {
            assert(out@ =~= start + spec_render(*self));
        }
    }

    /// Number of stones on the board.
    pub fn stones(&self) -> (r: u8)
        requires
            self.wf(),
        ensures
            r == self.spec_stones(),
            r <= 42,
    {
        self.both.stones()
    }

    /// `true` if the player who inserted the last stone has won the game.
    pub fn is_victory(&self) -> (r: bool)
        requires
            self.wf(),
        ensures
            r == self.spec_victory(),
    {
        self.last.is_win()
    }

    /// Uses the first 49 bits to uniquely encode the board. Two distinct
    /// well-formed positions never share a key.
    pub fn encode(&self) -> (r: u64)
        requires
            self.wf(),
        ensures
            r == self.spec_encode(),
            r < 0x2000000000000,
    {
        self.last.key(self.both)
    }

    /// `true` if the current player has a winning move available.
    pub fn can_win_in_next_move(&self) -> (r: bool)
        requires
            self.wf(),
        ensures
            r == self.spec_can_win_now(),
    {
        let mut current = self.last;
        current.flip(self.both);
        proof {
            lemma_me_valid(self.last.0, self.both.0);
        }
        let landings = self.both.possible();
        let threats = current.winning_positions();
        let hits = landings & threats;
        proof {
            if hits != 0 {
                crate::bitboard::lemma_nonzero_has_bit(hits);
                let j = choose|j: u64| j < 64 && bit_set(hits, j);
                crate::bitboard::lemma_and_bit(landings, threats, j);
                assert(bit_set(landings, j));
                assert(bit_set(threats, j));
                assert(bit_set(possible_word(self.both.0), j));
                assert(bit_set(threats, j) <==> (in_field(j) && is_winning_cell(current.0, j)));
                assert(is_winning_cell(self.spec_me(), j));
            }
            if self.spec_can_win_now() {
                let i = choose|i: u64|
                    i < 64 && bit_set(possible_word(self.both.0), i) && is_winning_cell(
                        self.spec_me(),
                        i,
                    );
                crate::bitboard::lemma_and_bit(landings, threats, i);
                crate::bitboard::lemma_nonzero_from_bit(hits, i);
            }
        }
        hits != 0
    }

    /// `true` if the game has a winner or is a draw.
    pub fn is_over(&self) -> (r: bool)
        requires
            self.wf(),
        ensures
            r == self.spec_over(),
    {
        self.stones() == 42 || self.is_victory()
    }

    /// The mask of moves which prevent the opponent from winning
    /// immediately. Only useful when [`Self::can_win_in_next_move`] is
    /// `false`: a winning move may be excluded by it.
    pub fn non_loosing_moves_impl(&self) -> (r: NonLoosingMoves)
        requires
            self.wf(),
        ensures
            forall|i: u64|
                i < 64 ==> (bit_set(r.0, i) <==> safe_landing(self.last.0, self.both.0, i)),
    {
        NonLoosingMoves::new(self.last, self.both)
    }

    /// Lists all moves which prevent the opponent from winning
    /// immediately, in ascending column order. Only useful when
    /// [`Self::can_win_in_next_move`] is `false`.
    pub fn non_loosing_moves(&self) -> (r: Vec<Column>)
        requires
            self.wf(),
        ensures
            r@ == spec_safe_cols(*self, 7),
    {
        let nlm = self.non_loosing_moves_impl();
        let mut v: Vec<Column> = Vec::new();
        let mut c: u8 = 0;
        while c < 7
            invariant
                c <= 7,
                self.wf(),
                forall|i: u64|
                    i < 64 ==> (bit_set(nlm.0, i) <==> safe_landing(self.last.0, self.both.0, i)),
                v@ == spec_safe_cols(*self, c as int),
            decreases 7 - c,
        {
            if nlm.contains(c) {
                v.push(Column(c));
                proof {
                    let j = choose|j: u64| j < 64 && j / 7 == c && bit_set(nlm.0, j);
                    assert(column_has_safe_landing(*self, c as u64));
                }
            } else {
                proof {
                    if column_has_safe_landing(*self, c as u64) {
                        let j = choose|j: u64|
                            j < 64 && j / 7 == c && safe_landing(self.last.0, self.both.0, j);
                        assert(bit_set(nlm.0, j));
                        assert(false);
                    }
                }
            }
            c = c + 1;
            proof {
                assert(v@ =~= spec_safe_cols(*self, c as int));
            }
        }
        v
    }
}

/// The position reached by playing out a list of column digits from
/// `p`, or nothing if some byte is no digit from `1` (byte 49) to `7`
/// (byte 55) or its column is full when its turn comes.
pub open spec fn spec_play_list(p: ConnectFour, s: Seq<u8>) -> Option<ConnectFour>
    decreases s.len(),
{
    if s.len() == 0 {
        Some(p)
    } else {
        let b = s[0];
        if 49 <= b <= 55 && p.spec_legal((b - 49) as u64) {
            spec_play_list(p.spec_play((b - 49) as u64), s.drop_first())
        } else {
            None
        }
    }
}

/// The byte drawn for a cell: `X` for player one, `O` for player two, a
/// space for an empty cell.
pub open spec fn spec_cell_byte(p: ConnectFour, row: int, column: int) -> u8 {
    match p.spec_cell(row, column) {
        Cell::PlayerOne => 88u8,
        Cell::PlayerTwo => 79u8,
        Cell::Empty => 32u8,
    }
}

/// The first `columns` cells of one printed row: each cell led in by a
/// `|` frame byte.
pub open spec fn spec_row_cells(p: ConnectFour, row: int, columns: int) -> Seq<u8>
    decreases columns,
{
    if columns <= 0 {
        Seq::empty()
    } else {
        spec_row_cells(p, row, columns - 1) + seq![124u8, spec_cell_byte(p, row, columns - 1)]
    }
}

/// The topmost `printed` rows of the board as text, top to bottom, each
/// closed by a frame byte and a newline.
pub open spec fn spec_rows_bytes(p: ConnectFour, printed: int) -> Seq<u8>
    decreases printed,
{
    if printed <= 0 {
        Seq::empty()
    } else {
        spec_rows_bytes(p, printed - 1) + spec_row_cells(p, 6 - printed, 7) + seq![124u8, 10u8]
    }
}

/// The first `digits` column numbers of the footer, each led in by a
/// space.
pub open spec fn spec_number_row(digits: int) -> Seq<u8>
    decreases digits,
{
    if digits <= 0 {
        Seq::empty()
    } else {
        spec_number_row(digits - 1) + seq![32u8, (48 + digits) as u8]
    }
}

/// The full text representation of a board: six framed rows top to
/// bottom, a separator of fifteen dashes, and the column numbers.
pub open spec fn spec_render(p: ConnectFour) -> Seq<u8> {
    spec_rows_bytes(p, 6) + Seq::new(15, |k: int| 45u8) + seq![10u8] + spec_number_row(7)
        + seq![10u8]
}

/// A column of the board in which the side to move can land a stone
/// without handing the opponent an immediate win.
pub open spec fn column_has_safe_landing(p: ConnectFour, c: u64) -> bool {
    exists|i: u64| i < 64 && i / 7 == c && safe_landing(p.last.0, p.both.0, i)
}

/// The legal columns of `p` below column `n`, in ascending order.
pub open spec fn spec_legal_cols(p: ConnectFour, n: int) -> Seq<Column>
    decreases n,
{
    if n <= 0 {
        Seq::empty()
    } else {
        spec_legal_cols(p, n - 1) + if p.spec_legal((n - 1) as u64) {
            seq![Column((n - 1) as u8)]
        } else {
            Seq::empty()
        }
    }
}

/// The non-losing columns of `p` below column `n`, in ascending order.
pub open spec fn spec_safe_cols(p: ConnectFour, n: int) -> Seq<Column>
    decreases n,
{
    if n <= 0 {
        Seq::empty()
    } else {
        spec_safe_cols(p, n - 1) + if column_has_safe_landing(p, (n - 1) as u64) {
            seq![Column((n - 1) as u8)]
        } else {
            Seq::empty()
        }
    }
}

/// Every column listed by `spec_legal_cols` is a real, legal column.
pub proof fn lemma_legal_cols_elems(p: ConnectFour, n: int)
    requires
        0 <= n <= 7,
    ensures
        forall|k: int|
            0 <= k < spec_legal_cols(p, n).len() ==> (#[trigger] spec_legal_cols(p, n)[k]).0 < n
                && p.spec_legal(spec_legal_cols(p, n)[k].0 as u64),
    decreases n,
{
    if n > 0 {
        lemma_legal_cols_elems(p, n - 1);
        assert forall|k: int| 0 <= k < spec_legal_cols(p, n).len() implies (
        #[trigger] spec_legal_cols(p, n)[k]).0 < n && p.spec_legal(
            spec_legal_cols(p, n)[k].0 as u64,
        ) by {
            if k < spec_legal_cols(p, n - 1).len() {
                assert(spec_legal_cols(p, n)[k] == spec_legal_cols(p, n - 1)[k]);
            }
        }
    }
}

/// Every open column is listed by `spec_legal_cols`.
pub proof fn lemma_legal_cols_complete(p: ConnectFour, c: u64, n: int)
    requires
        c < n <= 7,
        p.spec_legal(c),
    ensures
        spec_legal_cols(p, n).contains(Column(c as u8)),
    decreases n,
{
    if c < n - 1 {
        lemma_legal_cols_complete(p, c, n - 1);
        let j = choose|j: int|
            0 <= j < spec_legal_cols(p, n - 1).len() && #[trigger] spec_legal_cols(p, n - 1)[j]
                == Column(c as u8);
        assert(spec_legal_cols(p, n)[j] == Column(c as u8));
    } else {
        assert(spec_legal_cols(p, n).last() == Column(c as u8));
    }
}

/// The empty board is well formed.
proof fn lemma_empty_wf()
    by (bit_vector)
    ensures
        valid_mask(0),
        columns_contiguous(0),
        0u64 & !0u64 == 0,
{
}

/// After a stone lands, the masks of the new position are well formed,
/// and the new mover-complement is the old side-to-move mask plus the new
/// stone.
proof fn lemma_play_masks(last: u64, both: u64, i: u64)
    by (bit_vector)
    requires
        last & !both == 0,
        both & !crate::bitboard::BOARD_MASK == 0,
        (both | (1u64 << i)) & !crate::bitboard::BOARD_MASK == 0,
        !bit_set(both, i),
    ensures
        (last ^ (both | (1u64 << i))) & !(both | (1u64 << i)) == 0,
        (last ^ (both | (1u64 << i))) & !crate::bitboard::BOARD_MASK == 0,
        last ^ (both | (1u64 << i)) == (last ^ both) | (1u64 << i),
{
}

/// The side-to-move mask of a well-formed position is itself a valid
/// mask.
proof fn lemma_me_valid(last: u64, both: u64)
    by (bit_vector)
    requires
        last & !both == 0,
        both & !crate::bitboard::BOARD_MASK == 0,
    ensures
        (last ^ both) & !crate::bitboard::BOARD_MASK == 0,
        (last ^ both) & !both == 0,
{
}

/// The canonical key of a well-formed position fits in 49 bits: the sum
/// never carries across a column, since each column of the occupancy is
/// filled from the bottom.
pub proof fn lemma_encode_bound(p: ConnectFour)
    requires
        p.wf(),
    ensures
        0 <= p.spec_encode() < 0x2000000000000,
{
    let a = p.last.0;
    let b = p.both.0;
    assert(a + b < 0x2000000000000) by (bit_vector)
        requires
            a & !b == 0,
            b & !crate::bitboard::BOARD_MASK == 0,
            b & ((b + crate::bitboard::BOTTOM_ROW) as u64) == 0,
    ;
}

/// The canonical key is injective: two distinct well-formed positions
/// never encode to the same value. Adding the occupancy lights up the bit
/// directly above the top stone of each column, so the key fixes every
/// column height, and with it both masks.
pub proof fn lemma_encode_injective(p1: ConnectFour, p2: ConnectFour)
    requires
        p1.wf(),
        p2.wf(),
        p1.spec_encode() == p2.spec_encode(),
    ensures
        p1 == p2,
{
    let m1 = p1.last.0;
    let o1 = p1.both.0;
    let m2 = p2.last.0;
    let o2 = p2.both.0;
    assert(m1 == m2 && o1 == o2) by (bit_vector)
        requires
            m1 & !o1 == 0,
            o1 & !crate::bitboard::BOARD_MASK == 0,
            o1 & ((o1 + crate::bitboard::BOTTOM_ROW) as u64) == 0,
            m2 & !o2 == 0,
            o2 & !crate::bitboard::BOARD_MASK == 0,
            o2 & ((o2 + crate::bitboard::BOTTOM_ROW) as u64) == 0,
            m1 + o1 == m2 + o2,
    ;
}

/// Playing any legal move keeps the position well formed and adds one
/// stone.
pub proof fn lemma_play_wf(p: ConnectFour, c: u64)
    requires
        p.wf(),
        c < 7,
        p.spec_legal(c),
    ensures
        p.spec_play(c).wf(),
        p.spec_play(c).spec_stones() == p.spec_stones() + 1,
        p.spec_play(c).spec_me() == p.last.0,
        p.spec_play(c).last.0 == (p.last.0 ^ p.both.0) | (1u64 << landing_index(p.both.0, c)),
        !bit_set(p.both.0, landing_index(p.both.0, c)),
        in_field(landing_index(p.both.0, c)),
{
    let o = p.both.0;
    crate::bitboard::lemma_landing_cell(o, c);
    crate::bitboard::lemma_insert_word(o, c);
    lemma_play_masks(p.last.0, o, landing_index(o, c));
    crate::bitboard::lemma_pop_insert(o, landing_index(o, c));
    let nb = p.spec_play(c).both.0;
    let m = p.last.0;
    assert((m ^ nb) ^ nb == m) by (bit_vector);
}

/// When the side to move cannot win with his next stone, no legal move
/// of his completes four in a row: every reached position leaves the
/// game open.
pub proof fn lemma_play_no_new_four(p: ConnectFour, c: u64)
    requires
        p.wf(),
        c < 7,
        p.spec_legal(c),
        !has_four(p.spec_me()),
        !p.spec_can_win_now(),
    ensures
        !p.spec_play(c).spec_victory(),
        bit_set(possible_word(p.both.0), landing_index(p.both.0, c)),
{
    let o = p.both.0;
    let me = p.spec_me();
    crate::bitboard::lemma_landing_cell(o, c);
    let i = landing_index(o, c);
    lemma_play_wf(p, c);
    assert(i % 7 == crate::bitboard::landing_row(o, c) && i / 7 == c) by (nonlinear_arith)
        requires
            i == 7 * c + crate::bitboard::landing_row(o, c),
            c < 7,
            crate::bitboard::landing_row(o, c) < 7,
    ;
    crate::bitboard::lemma_possible_word(o, i);
    assert(bit_set(possible_word(o), i));
    if has_four(p.spec_play(c).last.0) {
        lemma_me_valid(p.last.0, o);
        crate::bitboard::lemma_new_four_is_winning_cell(me, o, i);
        assert(is_winning_cell(me, i));
        assert(p.spec_can_win_now());
    }
}

/// The outcome of playing a non-losing move: the move is legal, lands on
/// the safe cell, and hands the opponent a position in which he cannot
/// win on his next stone. This carries the meaning of the non-losing-move
/// mask over to whole positions, and is what lets a search recurse into
/// such a child without checking for immediate wins again.
pub proof fn lemma_safe_move_outcome(p: ConnectFour, i: u64)
    requires
        p.wf(),
        !p.spec_victory(),
        !has_four(p.spec_me()),
        !p.spec_can_win_now(),
        safe_landing(p.last.0, p.both.0, i),
    ensures
        p.spec_legal(i / 7),
        i == landing_index(p.both.0, i / 7),
        p.spec_play(i / 7).wf(),
        p.spec_play(i / 7).spec_stones() == p.spec_stones() + 1,
        !p.spec_play(i / 7).spec_victory(),
        !has_four(p.spec_play(i / 7).spec_me()),
        !p.spec_play(i / 7).spec_can_win_now(),
{
    let c = i / 7;
    let o = p.both.0;
    let m = p.last.0;
    let me = p.spec_me();
    let q = p.spec_play(c);
    vstd::arithmetic::div_mod::lemma_fundamental_div_mod(i as int, 7);
    assert(i == 7 * c + (i % 7));
    crate::bitboard::lemma_full_column(o, c);
    assert(p.spec_legal(c));
    crate::bitboard::lemma_landing_cell(o, c);
    assert(i == landing_index(o, c));
    let stone = 1u64 << i;
    crate::bitboard::lemma_insert_word(o, c);
    assert(crate::bitboard::insert_word(o, c) == o | stone);
    assert(q.both.0 == o | stone);
    lemma_play_masks(m, o, i);
    crate::bitboard::lemma_pop_insert(o, i);
    lemma_me_valid(m, o);
    crate::bitboard::lemma_possible_word(o, i);
    assert(bit_set(possible_word(o), i));
    // The move does not complete four of the mover's own stones: the cell
    // would otherwise be a winning cell of an immediately winnable
    // position.
    assert(q.last.0 == me | stone);
    if has_four(q.last.0) {
        crate::bitboard::lemma_new_four_is_winning_cell(me, o, i);
        assert(!has_four(me));
        assert(is_winning_cell(me, i));
        assert(p.spec_can_win_now());
    }
    // The opponent's stones are unchanged, and every landing cell of the
    // new position is either another landing cell of the old one, which
    // the safe mask cleared of opponent threats, or the cell opened
    // directly above the move, which it checked as well.
    assert(q.spec_me() == m) by {
        let nb = q.both.0;
        assert((m ^ nb) ^ nb == m) by (bit_vector);
    }
    if q.spec_can_win_now() {
        let j = choose|j: u64|
            j < 64 && bit_set(possible_word(q.both.0), j) && is_winning_cell(q.spec_me(), j);
        crate::bitboard::lemma_possible_after_insert(o, i, j);
        if bit_set(possible_word(o), j) && j != i {
            crate::bitboard::lemma_possible_word(o, j);
            assert(safe_landing(m, o, i));
            assert(j == i);
        } else {
            assert(j == (i + 1) as u64 && in_field((i + 1) as u64));
            assert(!(in_field((i + 1) as u64) && is_winning_cell(m, (i + 1) as u64)));
        }
        assert(false);
    }
}

/// Playing a legal move is one-way on the occupancy, but flipping the new
/// mover-complement against the new occupancy restores the old one: the
/// two masks of the previous position can be read back from the new
/// position, though no further move can undo the stone itself.
pub proof fn lemma_play_flip_restores(p: ConnectFour, c: u64)
    requires
        p.wf(),
        c < 7,
        p.spec_legal(c),
    ensures
        p.spec_play(c).last.0 ^ p.spec_play(c).both.0 == p.last.0,
        p.spec_play(c).both.0 != p.both.0,
{
    let q = p.spec_play(c);
    let nb = q.both.0;
    let ob = p.both.0;
    let ol = p.last.0;
    let i = landing_index(ob, c);
    crate::bitboard::lemma_landing_cell(ob, c);
    assert((ol ^ nb) ^ nb == ol) by (bit_vector);
    assert(nb != ob) by (bit_vector)
        requires
            nb == ob | (1u64 << i),
            !bit_set(ob, i),
            i < 64,
    ;
}

} // verus!
