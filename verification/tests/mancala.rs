use mancala::board::{MancalaBoard, MoveResult};
use mancala::search::simulate;

#[test]
fn default_board() {
    let board = MancalaBoard::default();
    assert_eq!(board.spaces, [0, 4, 4, 4, 4, 4, 4, 4, 4, 4, 4, 4, 4]);
}

#[test]
fn new_board() {
    let board = MancalaBoard::new([0, 1, 2, 3, 4, 5, 6, 7, 8, 9, 10, 11, 12], 0);
    assert_eq!(board.spaces, [0, 1, 2, 3, 4, 5, 6, 7, 8, 9, 10, 11, 12]);
}

#[test]
fn solve_default_board() {
    let board = MancalaBoard::default();
    let solved_board = simulate(board, 100);
    assert_eq!(
        solved_board.move_history,
        [
            12, 9, 8, 11, 7, 7, 11, 11, 12, 7, 9, 10, 12, 8, 12, 12, 11, 8, 12, 8, 12, 10, 12,
            11, 12, 7
        ]
    );
}

#[test]
fn move_piece() {
    let mut board = MancalaBoard::default();
    board.move_piece(7);
    assert_eq!(board.spaces, [0, 4, 4, 4, 4, 4, 4, 0, 5, 5, 5, 5, 4]);
}

#[test]
fn first_move_redistributes_and_continues() {
    let mut board = MancalaBoard::default();
    let outcome = board.move_piece(7);
    assert!(matches!(outcome, MoveResult::Avalanche(11)));
    assert_eq!(board.spaces, [0, 4, 4, 4, 4, 4, 4, 0, 5, 5, 5, 5, 4]);
    assert_eq!(board.move_history, [7]);
    assert_eq!(board.move_count, 1);
}

#[test]
fn landing_in_own_store_grants_free_turn() {
    let mut board = MancalaBoard::default();
    let outcome = board.move_piece(9);
    assert!(matches!(outcome, MoveResult::FreeTurn));
    assert_eq!(board.spaces, [1, 4, 4, 4, 4, 4, 4, 4, 4, 0, 5, 5, 5]);
}

#[test]
fn avalanche_reported_and_history_not_extended() {
    let mut board = MancalaBoard::new([0, 1, 1, 1, 1, 1, 1, 2, 1, 1, 1, 1, 1], 0);
    let outcome = board.move_piece(7);
    match outcome {
        MoveResult::Avalanche(landing) => assert_eq!(landing, 9),
        _ => panic!("expected an avalanche"),
    }
    assert!(board.did_avalanche);
    assert_eq!(board.move_history, [7]);
    let outcome = board.move_piece(9);
    assert!(matches!(outcome, MoveResult::Avalanche(11)));
    assert_eq!(board.move_history, [7]);
    assert_eq!(board.move_count, 1);
}

#[test]
fn game_over_when_own_side_runs_out_landing_in_store() {
    let mut board = MancalaBoard::new([0, 4, 4, 4, 4, 4, 0, 0, 0, 0, 0, 0, 1], 0);
    let outcome = board.move_piece(12);
    assert!(matches!(outcome, MoveResult::GameOver));
    assert_eq!(board.spaces, [1, 4, 4, 4, 4, 4, 0, 0, 0, 0, 0, 0, 0]);
}

#[test]
fn game_over_when_own_side_runs_out_landing_elsewhere() {
    let mut board = MancalaBoard::new([0, 0, 4, 4, 4, 4, 0, 0, 0, 0, 0, 0, 2], 0);
    let outcome = board.move_piece(12);
    assert!(matches!(outcome, MoveResult::GameOver));
    assert_eq!(board.spaces, [1, 1, 4, 4, 4, 4, 0, 0, 0, 0, 0, 0, 0]);
}

#[test]
fn stones_are_conserved_across_moves() {
    let mut board = MancalaBoard::new([0, 1, 2, 3, 4, 5, 6, 7, 8, 9, 10, 11, 12], 9);
    let before: u32 =
        board.spaces.iter().map(|&x| x as u32).sum::<u32>() + board.opponent_store as u32;
    board.move_piece(12);
    board.move_piece(8);
    board.move_piece(10);
    let after: u32 =
        board.spaces.iter().map(|&x| x as u32).sum::<u32>() + board.opponent_store as u32;
    assert_eq!(before, after);
    assert_eq!(board.opponent_store, 9);
}

#[test]
fn own_store_never_decreases() {
    let mut board = MancalaBoard::default();
    let mut store = board.spaces[0];
    for pit in [7u8, 8, 9, 10, 11, 12, 7, 9] {
        board.move_piece(pit as usize);
        assert!(board.spaces[0] >= store);
        store = board.spaces[0];
    }
}

#[test]
fn sowing_an_empty_pit_changes_nothing_but_bookkeeping() {
    let mut board = MancalaBoard::new([0, 1, 1, 1, 1, 1, 1, 0, 1, 1, 1, 1, 1], 0);
    let outcome = board.move_piece(7);
    assert!(matches!(outcome, MoveResult::EmptySpace));
    assert_eq!(board.spaces, [0, 1, 1, 1, 1, 1, 1, 0, 1, 1, 1, 1, 1]);
    assert_eq!(board.move_history, [7]);
    assert_eq!(board.move_count, 1);
}

#[test]
fn clone_resets_the_avalanche_flag() {
    let mut board = MancalaBoard::new([0, 1, 1, 1, 1, 1, 1, 2, 1, 1, 1, 1, 1], 0);
    board.move_piece(7);
    assert!(board.did_avalanche);
    let copy = board.clone();
    assert!(!copy.did_avalanche);
    assert_eq!(copy.spaces, board.spaces);
    assert_eq!(copy.move_history, board.move_history);
    assert_eq!(copy.move_count, board.move_count);
}

#[test]
fn move_count_matches_recorded_moves() {
    let solved = simulate(MancalaBoard::default(), 100);
    assert_eq!(solved.move_count as usize, solved.move_history.len());
    assert_eq!(solved.move_count, 26);
}

#[test]
fn depth_bound_caps_the_move_count() {
    let solved = simulate(MancalaBoard::default(), 3);
    assert!(solved.move_count <= 3);
    assert_eq!(solved.move_count as usize, solved.move_history.len());
}

#[test]
fn search_is_deterministic() {
    let first = simulate(MancalaBoard::default(), 100);
    let second = simulate(MancalaBoard::default(), 100);
    assert_eq!(first.move_history, second.move_history);
    assert_eq!(first.spaces, second.spaces);
    assert_eq!(first.spaces[0], second.spaces[0]);
}

#[test]
fn search_conserves_stones_and_keeps_opponent_store() {
    let board = MancalaBoard::new([0, 1, 2, 3, 4, 5, 6, 7, 8, 9, 10, 11, 12], 5);
    let before: u32 =
        board.spaces.iter().map(|&x| x as u32).sum::<u32>() + board.opponent_store as u32;
    let solved = simulate(board, 4);
    let after: u32 =
        solved.spaces.iter().map(|&x| x as u32).sum::<u32>() + solved.opponent_store as u32;
    assert_eq!(before, after);
    assert_eq!(solved.opponent_store, 5);
    assert!(!solved.move_history.is_empty());
}
