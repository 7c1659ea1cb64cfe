use connect_four_solver::bitboard::PlayerStones;

#[test]
fn place_stones() {
    let mut board = PlayerStones::new();
    assert!(board.is_empty(0, 2));
    board.place_stone(0, 2);
    assert!(!board.is_empty(0, 2));

    assert!(board.is_empty(3, 3));
    board.place_stone(3, 3);
    assert!(!board.is_empty(3, 3));
}

#[test]
fn horizontal() {
    let mut board = PlayerStones::new();
    board.place_stone(0, 1);
    assert!(!board.is_win());
    board.place_stone(0, 2);
    assert!(!board.is_win());
    board.place_stone(0, 3);
    assert!(!board.is_win());
    board.place_stone(0, 4);
    assert!(board.is_win());
}

#[test]
fn vertical() {
    let mut board = PlayerStones::new();
    board.place_stone(1, 2);
    assert!(!board.is_win());
    board.place_stone(2, 2);
    assert!(!board.is_win());
    board.place_stone(3, 2);
    assert!(!board.is_win());
    board.place_stone(4, 2);
    assert!(board.is_win());
}

#[test]
fn diagonal1() {
    let mut board = PlayerStones::new();
    board.place_stone(1, 1);
    assert!(!board.is_win());
    board.place_stone(2, 2);
    assert!(!board.is_win());
    board.place_stone(3, 3);
    assert!(!board.is_win());
    board.place_stone(4, 4);
    assert!(board.is_win());
}

#[test]
fn diagonal2() {
    let mut board = PlayerStones::new();
    board.place_stone(1, 4);
    assert!(!board.is_win());
    board.place_stone(2, 3);
    assert!(!board.is_win());
    board.place_stone(3, 2);
    assert!(!board.is_win());
    board.place_stone(4, 1);
    assert!(board.is_win());
}

#[test]
fn winning_positions_of_three_in_the_bottom_row() {
    // Stones on (row 0, columns 1..=3): completing cells are (0,0) and
    // (0,4), plus the start of the rising diagonal over each stone pair.
    let mut board = PlayerStones::new();
    board.place_stone(0, 1);
    board.place_stone(0, 2);
    board.place_stone(0, 3);
    let winning = board.winning_positions();
    assert!(winning & (1u64 << (7 * 0 + 0)) != 0);
    assert!(winning & (1u64 << (7 * 4 + 0)) != 0);
    // No vertical completion anywhere.
    assert!(winning & (1u64 << (7 * 2 + 1)) == 0);
}

#[test]
fn winning_positions_vertical_stack() {
    let mut board = PlayerStones::new();
    board.place_stone(0, 5);
    board.place_stone(1, 5);
    board.place_stone(2, 5);
    let winning = board.winning_positions();
    assert_eq!(winning, 1u64 << (7 * 5 + 3));
}
