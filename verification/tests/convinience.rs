use connect_four_solver::{score, Column, ConnectFour, Solver};

// Picking the best opening move of the empty board is not exercised
// here: without a shipped opening book covering the low-stone positions,
// scoring the seven one-stone children means seven full solves, far
// beyond what a test run allows. The argmin behaviour itself is covered
// below on a late position, and is pinned by the contract of
// `Solver::best_moves` for every position.

#[test]
fn best_moves_agree_with_child_scores() {
    // The moves reported as best are exactly those whose reached
    // position scores lowest for the opponent.
    let game = ConnectFour::from_move_list("2252576253462244111563365343671351441");
    let mut solver = Solver::new();
    let mut best_moves = Vec::new();
    solver.best_moves(&game, &mut best_moves);

    let mut minimum = i8::MAX;
    let mut expected: Vec<Column> = Vec::new();
    for column in game.legal_moves() {
        let mut child = game;
        assert!(child.play(column));
        let child_score = score(&child);
        if child_score < minimum {
            minimum = child_score;
            expected.clear();
            expected.push(column);
        } else if child_score == minimum {
            expected.push(column);
        }
    }
    assert_eq!(expected, best_moves);
    assert!(!best_moves.is_empty());
}

#[test]
fn best_moves_leave_a_finished_game_alone() {
    let game = ConnectFour::from_move_list("5655663642443");
    let mut solver = Solver::new();
    let mut best_moves = Vec::new();
    solver.best_moves(&game, &mut best_moves);
    assert!(best_moves.is_empty());
}

#[test]
fn non_loosing_moves() {
    let game = ConnectFour::from_move_list("123242");
    let mut moves = game.non_loosing_moves().into_iter();
    assert_eq!(Some(Column::from_index(1)), moves.next());
    assert_eq!(None, moves.next());
}
