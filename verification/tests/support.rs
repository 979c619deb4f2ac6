use chess_meta::coordinator::{batch_budget, record_best_move, root_is_white};
use chess_meta::nn::encoding::flip_vertical;
use chess_meta::nn::NNError;
use chess_meta::coordinator::selected_before;
use chess_meta::engine::{classify_engine_line, next_query, EngineLine};
use chess_meta::nn::policy_map::{is_flippable, move_to_nn_index, policy_indices};
use chess_meta::search::{merge_candidates, NodeId};

#[test]
fn root_is_white_reads_the_side_to_move_field() {
    assert!(root_is_white("rnbqkbnr/pppppppp/8/8/8/8/PPPPPPPP/RNBQKBNR w KQkq -"));
    assert!(!root_is_white("rnbqkbnr/pppppppp/8/8/4P3/8/PPPP1PPP/RNBQKBNR b KQkq -"));
    assert!(root_is_white("startpos"));
    assert!(root_is_white(""));
}

#[test]
fn best_move_history_records_changes_only() {
    let mut history: Vec<(u64, String)> = Vec::new();
    record_best_move(&mut history, 50, "e2e4".to_string());
    record_best_move(&mut history, 100, "e2e4".to_string());
    record_best_move(&mut history, 150, "d2d4".to_string());
    record_best_move(&mut history, 200, "e2e4".to_string());
    assert_eq!(
        history,
        vec![
            (50, "e2e4".to_string()),
            (150, "d2d4".to_string()),
            (200, "e2e4".to_string())
        ]
    );
}

#[test]
fn batch_budget_stops_at_the_node_limit() {
    assert_eq!(batch_budget(16, 100, 10), 16);
    assert_eq!(batch_budget(16, 100, 90), 10);
    assert_eq!(batch_budget(16, 100, 99), 1);
}

#[test]
fn flip_vertical_swaps_ranks() {
    // White pawns on rank 2 land on rank 7.
    assert_eq!(flip_vertical(0x0000_0000_0000_FF00), 0x00FF_0000_0000_0000);
    assert_eq!(flip_vertical(0x0102_0304_0506_0708), 0x0807_0605_0403_0201);
    let b = 0x1234_5678_9abc_def0u64;
    assert_eq!(flip_vertical(flip_vertical(b)), b);
    assert_eq!(flip_vertical(b), b.swap_bytes());
}

#[test]
fn nn_error_messages() {
    assert_eq!(NNError::OrtError("x".into()).message(), "ONNX Runtime error: x");
    assert_eq!(NNError::ModelLoad("m.onnx".into()).message(), "Failed to load ONNX model: m.onnx");
    assert_eq!(NNError::ShapeError("s".into()).message(), "Tensor shape error: s");
    assert_eq!(NNError::NoOutput("o".into()).message(), "Missing model output: o");
}

#[test]
fn selected_before_finds_earlier_picks() {
    let picked = vec![NodeId(3), NodeId(7)];
    assert!(selected_before(&picked, NodeId(7)));
    assert!(!selected_before(&picked, NodeId(4)));
    assert!(!selected_before(&[], NodeId(0)));
}

#[test]
fn engine_lines_are_classified() {
    assert_eq!(classify_engine_line("bestmove e2e4 ponder e7e5"), EngineLine::BestMove);
    assert_eq!(
        classify_engine_line("info depth 1 seldepth 1 score cp 30 wdl 400 500 100 nodes 1"),
        EngineLine::Wdl(400, 500, 100)
    );
    assert_eq!(
        classify_engine_line("info string e2e4 (322 ) N: 1 (+ 0) (P: 11.5%) (Q: 0.02)"),
        EngineLine::MoveStats("e2e4".to_string(), "11.5".to_string(), Some("0.02".to_string()))
    );
    assert_eq!(classify_engine_line("info string node (0 ) N: 1 (P: 100%)"), EngineLine::Other);
    assert_eq!(classify_engine_line("info string wdl 1 2 3"), EngineLine::Other);
    assert_eq!(classify_engine_line("info depth 2 score cp 10"), EngineLine::Other);
    assert_eq!(classify_engine_line("readyok"), EngineLine::Other);
}

#[test]
fn ucinewgame_every_interval_queries() {
    assert_eq!(next_query(0, 3), (1, false));
    assert_eq!(next_query(2, 3), (3, true));
    assert_eq!(next_query(3, 3), (4, false));
    assert_eq!(next_query(0, 1), (1, true));
}

#[test]
fn policy_indices_follow_the_move_table() {
    let legal = vec!["e2e4".to_string(), "zz".to_string(), "g1f3".to_string()];
    let idx = policy_indices(&legal, false);
    assert_eq!(
        idx,
        vec![
            (0, move_to_nn_index("e2e4", false).unwrap()),
            (2, move_to_nn_index("g1f3", false).unwrap())
        ]
    );
    let black = vec!["e7e5".to_string()];
    assert!(is_flippable("e7e5"));
    assert!(!is_flippable("e7"));
    assert_eq!(policy_indices(&black, true), vec![(0, move_to_nn_index("e2e4", false).unwrap())]);
}

#[test]
fn merge_candidates_keeps_first_occurrences() {
    let engine = vec!["e2e4".to_string(), "d2d4".to_string(), "g1f3".to_string()];
    let maia = vec!["e2e4".to_string(), "d2d4".to_string(), "b1c3".to_string(), "g1f3".to_string(), "c2c4".to_string()];
    let merged = merge_candidates(&engine, &maia);
    assert_eq!(merged, vec!["e2e4", "d2d4", "g1f3", "b1c3", "c2c4"]);
    assert_eq!(merge_candidates(&vec![], &vec!["a2a3".to_string(), "a2a3".to_string()]), vec!["a2a3"]);
}
