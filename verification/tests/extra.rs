use connect_four_solver::precalculated::{precalculated_score, OpeningBook};
use connect_four_solver::solver::{reference_score, score_from_num_stones, stones_to_end, MoveExplorer};
use connect_four_solver::{score, Column, ConnectFour, Solver};

fn record(key: u64, score: i8) -> Vec<u8> {
    let mut bytes = key.to_le_bytes().to_vec();
    bytes.push(score as u8);
    bytes
}

#[test]
fn book_parses_and_answers() {
    let mut data = record(5, -3);
    data.extend(record(900, 7));
    let book = OpeningBook::from_bytes(&data, 2).unwrap();
    assert_eq!(book.len(), 2);
    assert_eq!(book.lookup(5), Some(-3));
    assert_eq!(book.lookup(900), Some(7));
    assert_eq!(book.lookup(6), None);
    assert_eq!(book.lookup(0), None);
    assert_eq!(book.lookup(901), None);
}

#[test]
fn book_rejects_torn_record() {
    let data = vec![0u8; 10];
    assert!(OpeningBook::from_bytes(&data, 1).is_none());
}

#[test]
fn book_rejects_impossible_score() {
    // No solved game is worth 100: the record cannot come from a
    // generated table.
    let data = record(5, 100);
    assert!(OpeningBook::from_bytes(&data, 1).is_none());
}

#[test]
fn book_rejects_unsorted_records() {
    let mut data = record(9, 1);
    data.extend(record(3, 1));
    assert!(OpeningBook::from_bytes(&data, 1).is_none());
}

#[test]
fn book_answers_only_below_cutoff() {
    // The empty board encodes to zero; give it a score of 1 and a cutoff
    // of one stone.
    let data = record(0, 1);
    let book = OpeningBook::from_bytes(&data, 1).unwrap();
    let empty = ConnectFour::new();
    assert_eq!(precalculated_score(&book, &empty), Some(1));
    let mut one_stone = empty;
    one_stone.play(Column::from_index(3));
    assert_eq!(precalculated_score(&book, &one_stone), None);
}

#[test]
fn solver_prefers_book_answers() {
    let data = record(0, 1);
    let book = OpeningBook::from_bytes(&data, 1).unwrap();
    let mut solver = Solver::with_book(book);
    assert_eq!(solver.score(&ConnectFour::new()), 1);
}

#[test]
fn score_of_finished_games() {
    assert_eq!(score_from_num_stones(42), -1);
    assert_eq!(score_from_num_stones(41), -1);
    assert_eq!(score_from_num_stones(40), -2);
    assert_eq!(score_from_num_stones(7), -18);
    assert_eq!(score_from_num_stones(0), -22);
}

#[test]
fn stones_to_end_examples() {
    // A draw fills the remaining board.
    assert_eq!(stones_to_end(0, 0), 42);
    // Losing in the position of `score_begin_easy`: the opponent keeps 8
    // stones, so 13 more stones fall.
    assert_eq!(stones_to_end(12, -9), 13);
    // Winning with the very next stones.
    assert_eq!(stones_to_end(40, 1), 2);
}

#[test]
fn render_empty_board() {
    let game = ConnectFour::new();
    let mut out = Vec::new();
    game.print_to(&mut out);
    let expected = "\
        | | | | | | | |\n\
        | | | | | | | |\n\
        | | | | | | | |\n\
        | | | | | | | |\n\
        | | | | | | | |\n\
        | | | | | | | |\n\
        ---------------\n \
         1 2 3 4 5 6 7\n\
    ";
    assert_eq!(expected, String::from_utf8(out).unwrap());
}

#[test]
fn encode_distinguishes_positions() {
    // Same occupancy, different ownership: the keys must differ.
    let a = ConnectFour::from_move_list("12");
    let b = ConnectFour::from_move_list("21");
    assert_ne!(a.encode(), b.encode());
    // And of course different occupancies differ.
    let c = ConnectFour::from_move_list("1");
    assert_ne!(a.encode(), c.encode());
    assert_ne!(b.encode(), c.encode());
}

#[test]
fn play_rejects_full_column() {
    let mut game = ConnectFour::from_move_list("111111");
    let before = game;
    assert!(!game.play(Column::from_index(0)));
    assert_eq!(before.encode(), game.encode());
    assert!(game.play(Column::from_index(1)));
}

#[test]
fn legal_moves_skip_full_columns() {
    let game = ConnectFour::from_move_list("111111");
    let legal: Vec<u8> = game.legal_moves().iter().map(|c| c.0).collect();
    assert_eq!(legal, vec![1, 2, 3, 4, 5, 6]);
    assert!(!game.is_legal_move(Column::from_index(0)));
    assert!(game.is_legal_move(Column::from_index(4)));
}

#[test]
fn finished_game_is_over() {
    let game = ConnectFour::from_move_list("5655663642443");
    assert!(game.is_over());
    assert_eq!(game.stones(), 13);
    assert!(!ConnectFour::new().is_over());
}

#[test]
fn negamax_symmetry_on_a_late_position() {
    // The score of a position is the negated minimum over the scores of
    // the positions one legal move away.
    let game = ConnectFour::from_move_list("2252576253462244111563365343671351441");
    let mut best = i8::MAX;
    for column in game.legal_moves() {
        let mut child = game;
        assert!(child.play(column));
        let child_score = score(&child);
        if child_score < best {
            best = child_score;
        }
    }
    assert_eq!(score(&game), -best);
}

#[test]
fn search_matches_reference_minimax_near_the_end() {
    // The pruned, cached search and the plain verified minimax must give
    // the same value.
    for moves in [
        "2252576253462244111563365343671351441677",
        "225257625346224411156336534367135144167",
        "2252576253462244111563365343671351441",
        "22525762534622441115633653436713514",
    ] {
        let game = ConnectFour::from_move_list(moves);
        assert_eq!(reference_score(&game), score(&game), "disagree on {moves}");
    }
}

#[test]
fn reused_solver_matches_fresh_scores() {
    let mut solver = Solver::new();
    let a = ConnectFour::from_move_list("2252576253462244111563365343671351441677");
    let b = ConnectFour::from_move_list("225257625346224411156336534367135144167");
    assert_eq!(solver.score(&a), 1);
    assert_eq!(solver.score(&b), -1);
    // Asking again answers from the warm table and must not change.
    assert_eq!(solver.score(&b), -1);
}

#[test]
fn move_explorer_orders_by_heuristic_then_center() {
    // From the empty board every child has the same heuristic, so the
    // static center-first priority decides the exploration order.
    let game = ConnectFour::new();
    let mut explorer = MoveExplorer::new();
    for col in 0..7 {
        explorer.add(col, &game);
    }
    explorer.sort();
    let order: Vec<u8> = explorer.moves.iter().map(|e| e.0).collect();
    assert_eq!(order, vec![3, 2, 4, 1, 5, 0, 6]);
}

#[test]
fn column_parse_accepts_only_digits() {
    assert_eq!(Column::parse("3"), Some(Column::from_index(2)));
    assert_eq!(Column::parse("7"), Some(Column::from_index(6)));
    assert_eq!(Column::parse("1x"), Some(Column::from_index(0)));
    assert_eq!(Column::parse("0"), None);
    assert_eq!(Column::parse("8"), None);
    assert_eq!(Column::parse(""), None);
    assert_eq!(Column::parse("x"), None);
}
