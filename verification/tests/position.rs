use chess_meta::position::{legal_uci_moves, outcome_from, GameOutcome, PositionState};
use shakmaty::{Color, Position};

/// The side to move.
fn turn(pos: &PositionState) -> Color {
    pos.chess.turn()
}

/// Whether the game is over.
fn is_game_over(pos: &PositionState) -> bool {
    pos.chess.is_game_over()
}

/// The terminal value from White's perspective, as the search scores a finished game.
fn terminal_value(pos: &PositionState) -> Option<f64> {
    pos.terminal_outcome().map(|o| match o {
        GameOutcome::WhiteWins => 1.0,
        GameOutcome::BlackWins => 0.0,
        GameOutcome::Draw => 0.5,
    })
}

#[test]
fn startpos_produces_initial_epd() {
    let pos = PositionState::startpos();
    assert!(pos.epd.contains("rnbqkbnr"));
    assert!(pos.move_sequence.is_empty());
}

#[test]
fn from_moves_empty_returns_startpos() {
    let pos = PositionState::from_moves("").unwrap();
    assert!(pos.move_sequence.is_empty());
    assert_eq!(turn(&pos), Color::White);
}

#[test]
fn from_moves_tracks_sequence_and_turn() {
    let pos = PositionState::from_moves("e2e4 e7e5").unwrap();
    assert_eq!(pos.move_sequence, "e2e4 e7e5");
    assert_eq!(turn(&pos), Color::White);
}

#[test]
fn from_moves_invalid_uci_returns_error() {
    let result = PositionState::from_moves("zzzz");
    assert!(result.is_err());
}

#[test]
fn from_moves_illegal_move_returns_error() {
    let result = PositionState::from_moves("e2e5"); // Pawn can't jump to e5
    assert!(result.is_err());
}

#[test]
fn apply_uci_updates_sequence_and_turn() {
    let pos = PositionState::startpos();
    let pos2 = pos.apply_uci("e2e4").unwrap();
    assert_eq!(pos2.move_sequence, "e2e4");
    assert_eq!(turn(&pos2), Color::Black);
}

#[test]
fn apply_uci_preserves_original_position() {
    let pos = PositionState::startpos();
    let _pos2 = pos.apply_uci("e2e4").unwrap();
    assert_eq!(turn(&pos), Color::White); // The position the move was played from is unchanged
    assert!(pos.move_sequence.is_empty());
}

#[test]
fn apply_uci_illegal_move_returns_error() {
    let pos = PositionState::startpos();
    let result = pos.apply_uci("e1e2"); // King can't move there
    assert!(result.is_err());
}

#[test]
fn terminal_checkmate_returns_winner_value() {
    // Scholar's mate — White wins
    let pos = PositionState::from_moves("e2e4 e7e5 d1h5 b8c6 f1c4 g8f6 h5f7").unwrap();
    assert!(is_game_over(&pos));
    assert_eq!(terminal_value(&pos), Some(1.0)); // White wins
}

#[test]
fn terminal_non_game_over_returns_none() {
    let pos = PositionState::from_moves("e2e4").unwrap();
    assert!(!is_game_over(&pos));
    assert_eq!(terminal_value(&pos), None);
}

#[test]
fn same_position_different_move_order_same_epd() {
    // 1. Nf3 Nf6 2. Nc3 vs 1. Nc3 Nf6 2. Nf3
    let pos_a = PositionState::from_moves("g1f3 g8f6 b1c3").unwrap();
    let pos_b = PositionState::from_moves("b1c3 g8f6 g1f3").unwrap();
    assert_eq!(pos_a.epd, pos_b.epd);
    assert_ne!(pos_a.move_sequence, pos_b.move_sequence);
}

#[test]
fn position_move_sequence_tracks_path() {
    let start = PositionState::startpos();
    let p1 = start.apply_uci("e2e4").unwrap();
    let p2 = p1.apply_uci("e7e5").unwrap();
    let p3 = p2.apply_uci("g1f3").unwrap();

    assert_eq!(p1.move_sequence, "e2e4");
    assert_eq!(p2.move_sequence, "e2e4 e7e5");
    assert_eq!(p3.move_sequence, "e2e4 e7e5 g1f3");
}

#[test]
fn from_moves_error_texts_name_the_move() {
    assert_eq!(
        PositionState::from_moves("e2e4 zzzz e7e5").unwrap_err(),
        "Invalid UCI move 'zzzz': invalid uci"
    );
    assert_eq!(
        PositionState::from_moves("e2e4 e2e4").unwrap_err(),
        "Illegal move 'e2e4': illegal uci"
    );
}

#[test]
fn apply_uci_error_texts_name_the_move() {
    let pos = PositionState::startpos();
    assert_eq!(pos.apply_uci("e9e4").unwrap_err(), "Invalid UCI move 'e9e4': invalid uci");
    assert_eq!(pos.apply_uci("e1e2").unwrap_err(), "Illegal move 'e1e2': illegal uci");
}

#[test]
fn from_moves_collapses_extra_whitespace() {
    let pos = PositionState::from_moves("  e2e4   e7e5 \t").unwrap();
    assert_eq!(pos.move_sequence, "e2e4 e7e5");
    let same = PositionState::from_moves("e2e4 e7e5").unwrap();
    assert_eq!(pos.epd, same.epd);
}

#[test]
fn from_moves_matches_repeated_apply_uci() {
    let a = PositionState::from_moves("d2d4 d7d5 c2c4").unwrap();
    let b = PositionState::startpos()
        .apply_uci("d2d4")
        .unwrap()
        .apply_uci("d7d5")
        .unwrap()
        .apply_uci("c2c4")
        .unwrap();
    assert_eq!(a.epd, b.epd);
    assert_eq!(a.move_sequence, b.move_sequence);
    assert_eq!(a.epd_history, b.epd_history);
    let bad = PositionState::from_moves("d2d4 d7d5 c2c4 e1e3").unwrap_err();
    assert_eq!(Err(bad), b.apply_uci("e1e3").map(|p| p.epd));
}

#[test]
fn stalemate_is_a_draw() {
    // A well-known fastest stalemate.
    let pos = PositionState::from_moves(
        "e2e3 a7a5 d1h5 a8a6 h5a5 h7h5 h2h4 a6h6 a5c7 f7f6 c7d7 e8f7 d7b7 d8d3 b7b8 d3h7 b8c8 f7g6 c8e6",
    )
    .unwrap();
    assert_eq!(pos.terminal_outcome(), Some(GameOutcome::Draw));
}

#[test]
fn outcome_from_scores_the_side_to_move() {
    assert_eq!(outcome_from(true, false, false, true, 0, 1), Some(GameOutcome::BlackWins));
    assert_eq!(outcome_from(true, false, false, false, 0, 1), Some(GameOutcome::WhiteWins));
    assert_eq!(outcome_from(false, true, false, true, 0, 1), Some(GameOutcome::Draw));
    assert_eq!(outcome_from(false, false, true, false, 0, 1), Some(GameOutcome::Draw));
    assert_eq!(outcome_from(false, false, false, true, 0, 1), None);
}

#[test]
fn fifty_move_rule_and_repetition_are_draws() {
    assert_eq!(outcome_from(false, false, false, true, 99, 1), None);
    assert_eq!(outcome_from(false, false, false, true, 100, 1), Some(GameOutcome::Draw));
    assert_eq!(outcome_from(false, false, false, false, 0, 2), None);
    assert_eq!(outcome_from(false, false, false, false, 0, 3), Some(GameOutcome::Draw));
    // Checkmate on the hundredth halfmove is still checkmate.
    assert_eq!(outcome_from(true, false, false, true, 100, 1), Some(GameOutcome::BlackWins));
}

#[test]
fn threefold_repetition_ends_the_game() {
    let twice = PositionState::from_moves("g1f3 g8f6 f3g1 f6g8").unwrap();
    assert_eq!(twice.terminal_outcome(), None);
    let thrice = PositionState::from_moves("g1f3 g8f6 f3g1 f6g8 g1f3 g8f6 f3g1 f6g8").unwrap();
    assert_eq!(thrice.terminal_outcome(), Some(GameOutcome::Draw));
    assert_eq!(thrice.epd, PositionState::startpos().epd);
    assert_eq!(thrice.epd_history.len(), 9);
    // Reached by apply_uci as well.
    let again = twice.apply_uci("g1f3").unwrap().apply_uci("g8f6").unwrap().apply_uci("f3g1").unwrap();
    assert_eq!(again.terminal_outcome(), None);
    assert_eq!(again.apply_uci("f6g8").unwrap().terminal_outcome(), Some(GameOutcome::Draw));
}

#[test]
fn start_position_epd_and_history() {
    let start = PositionState::startpos();
    assert_eq!(start.epd, "rnbqkbnr/pppppppp/8/8/8/8/PPPPPPPP/RNBQKBNR w KQkq -");
    assert_eq!(start.epd_history, vec![start.epd.clone()]);
    let after = start.apply_uci("e2e4").unwrap();
    assert_eq!(after.epd_history, vec![start.epd.clone(), after.epd.clone()]);
    assert_eq!(PositionState::from_moves("e2e4").unwrap().epd_history, after.epd_history);
}

#[test]
fn legal_moves_of_the_start_position() {
    let start = PositionState::startpos();
    let moves = legal_uci_moves(&start.chess);
    assert_eq!(moves.len(), 20);
    assert!(moves.contains(&"e2e4".to_string()));
    assert!(moves.contains(&"g1f3".to_string()));
    // Castling is written as the king's two-square move.
    let ready = PositionState::from_moves("e2e4 e7e5 g1f3 b8c6 f1c4 g8f6").unwrap();
    assert!(legal_uci_moves(&ready.chess).contains(&"e1g1".to_string()));
}
