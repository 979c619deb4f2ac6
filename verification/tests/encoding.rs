use chess_meta::nn::encoding::{build_history, encode_planes, flip_vertical, HISTORY_DEPTH, INPUT_PLANES};
use chess_meta::position::PositionState;
use shakmaty::fen::Epd;
use shakmaty::{EnPassantMode, Position};

fn epd_of(chess: &shakmaty::Chess) -> String {
    Epd::from_position(chess, EnPassantMode::Legal).to_string()
}

#[test]
fn build_history_startpos_has_one_entry() {
    let history = build_history("");
    assert_eq!(history.len(), 1);
}

#[test]
fn build_history_after_two_moves_has_three_entries() {
    let history = build_history("e2e4 e7e5");
    assert_eq!(history.len(), 3);
    // history[0] = after e4 e5, history[1] = after e4, history[2] = startpos
    assert_eq!(epd_of(&history[0]), PositionState::from_moves("e2e4 e7e5").unwrap().epd);
    assert_eq!(epd_of(&history[1]), PositionState::from_moves("e2e4").unwrap().epd);
    assert_eq!(epd_of(&history[2]), PositionState::startpos().epd);
}

#[test]
fn build_history_truncates_to_eight() {
    // 10 moves = 11 positions, should truncate to 8
    let history = build_history("e2e4 e7e5 g1f3 b8c6 f1b5 a7a6 b5a4 g8f6 e1g1 f8e7");
    assert_eq!(history.len(), HISTORY_DEPTH);
}

#[test]
fn build_history_stops_at_the_first_bad_move() {
    let history = build_history("e2e4 e7e5 e1e3 g1f3");
    assert_eq!(history.len(), 3);
    let history = build_history("d2d4 xx d7d5");
    assert_eq!(history.len(), 2);
    assert!(history[0].turn().is_black());
}

#[test]
fn flip_vertical_mirrors_white_pawns_onto_rank_seven() {
    let start = PositionState::startpos();
    let board = start.chess.board();
    let white_pawns = u64::from(board.by_color(shakmaty::Color::White) & board.by_role(shakmaty::Role::Pawn));
    let black_pawns = u64::from(board.by_color(shakmaty::Color::Black) & board.by_role(shakmaty::Role::Pawn));
    assert_eq!(flip_vertical(white_pawns), black_pawns);
}

#[test]
fn start_position_planes() {
    let encoded = encode_planes(&build_history(""));
    let p = &encoded.planes;
    assert_eq!(p.len(), INPUT_PLANES);
    assert_eq!(p[0], 0xFF00); // our (White) pawns
    assert_eq!(p[5], 1 << 4); // our king on e1
    assert_eq!(p[6], 0x00FF_0000_0000_0000); // their pawns
    assert_eq!(p[11], 1 << 60); // their king on e8
    assert_eq!(p[12], 0); // repetitions are not tracked
    assert!(p[13..104].iter().all(|&b| b == 0)); // no earlier positions
    assert!(p[104..108].iter().all(|&b| b == u64::MAX)); // all castling rights
    assert_eq!(p[108], 0); // White to move
    assert_eq!(p[109], 0);
    assert_eq!(p[110], 0);
    assert_eq!(p[111], u64::MAX);
    assert_eq!(encoded.rule50, 0);
}

#[test]
fn black_to_move_planes_are_mirrored() {
    let encoded = encode_planes(&build_history("e2e4"));
    let p = &encoded.planes;
    assert_eq!(p[0], 0xFF00); // Black's pawns, seen from Black's side
    assert_eq!(p[6], 0x00EF_0010_0000_0000); // White's pawns after e2e4, mirrored
    assert_eq!(p[13], 0xFF00); // the start position, from White's side
    assert_eq!(p[108], u64::MAX); // Black to move
    let later = encode_planes(&build_history("g1f3 g8f6 f3g1 f6g8"));
    assert_eq!(later.rule50, 4);
}
