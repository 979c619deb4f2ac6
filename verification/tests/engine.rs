use chess_meta::engine::{
    castle_to_king_rook, format_position_cmd, lookup_castling_aware, parse_wdl,
    split_verbose_move_stats,
};

#[test]
fn test_parse_verbose_move_stats() {
    let line = "info string d2d4  (293 ) N:    7934 (+18) (P: 12.71%) (WL:  0.05704) (D: 0.745) (M: 197.1) (Q:  0.05704) (U: 0.00749) (S:  0.06484) (V:  0.0303)";
    let (uci_move, policy_text, q_text) = split_verbose_move_stats(line).unwrap();
    let policy_pct: f32 = policy_text.parse().unwrap();
    let q_value: Option<f32> = q_text.and_then(|q| q.parse().ok());
    assert_eq!(uci_move, "d2d4");
    assert!((policy_pct - 12.71).abs() < 0.01);
    assert!((q_value.unwrap() - 0.05704).abs() < 0.0001);
}

#[test]
fn test_parse_verbose_node_line() {
    let line = "info string node (0 ) N: 100000 (+ 0) (P: 100.00%) (WL: 0.05) (D: 0.7) (M: 200.0) (Q: 0.05) (V: 0.05)";
    assert!(split_verbose_move_stats(line).is_none());
}

#[test]
fn test_parse_wdl() {
    let line = "info depth 1 score cp 30 wdl 400 500 100 pv e2e4";
    assert_eq!(parse_wdl(line), Some((400, 500, 100)));
}

#[test]
fn test_format_position_cmd() {
    assert_eq!(format_position_cmd(""), "position startpos");
    assert_eq!(
        format_position_cmd("e2e4 e7e5"),
        "position startpos moves e2e4 e7e5"
    );
}

#[test]
fn test_castle_to_king_rook() {
    assert_eq!(castle_to_king_rook("e1g1"), Some("e1h1"));
    assert_eq!(castle_to_king_rook("e2e4"), None);
}

#[test]
fn castle_to_king_rook_maps_all_four_castlings() {
    assert_eq!(castle_to_king_rook("e1c1"), Some("e1a1"));
    assert_eq!(castle_to_king_rook("e8g8"), Some("e8h8"));
    assert_eq!(castle_to_king_rook("e8c8"), Some("e8a8"));
    assert_eq!(castle_to_king_rook("e1h1"), None);
}

#[test]
fn parse_wdl_without_wdl_token_is_none() {
    assert_eq!(parse_wdl("info depth 1 score cp 30 pv e2e4"), None);
}

#[test]
fn parse_wdl_with_too_few_numbers_is_none() {
    assert_eq!(parse_wdl("info wdl 400 500"), None);
}

#[test]
fn parse_wdl_with_non_number_is_none() {
    assert_eq!(parse_wdl("info wdl 400 x 100 pv e2e4"), None);
}

#[test]
fn parse_wdl_reads_first_wdl_token() {
    assert_eq!(parse_wdl("wdl 1 2 3 wdl 4 5 6"), Some((1, 2, 3)));
}

#[test]
fn lookup_castling_aware_prefers_direct_key() {
    let map = vec![("e1g1".to_string(), 7u32), ("e1h1".to_string(), 9u32)];
    assert_eq!(lookup_castling_aware("e1g1", &map), Some(7));
}

#[test]
fn lookup_castling_aware_falls_back_to_king_rook() {
    let map = vec![("e1h1".to_string(), 9u32), ("d2d4".to_string(), 3u32)];
    assert_eq!(lookup_castling_aware("e1g1", &map), Some(9));
    assert_eq!(lookup_castling_aware("d2d4", &map), Some(3));
    assert_eq!(lookup_castling_aware("c2c4", &map), None);
}

#[test]
fn split_verbose_stats_without_q_field() {
    let line = "info string e2e4 (322 ) N: 12 (+ 0) (P:  5.5%)";
    let (m, p, q) = split_verbose_move_stats(line).unwrap();
    assert_eq!(m, "e2e4");
    assert_eq!(p, "5.5");
    assert_eq!(q, None);
}

#[test]
fn split_verbose_stats_needs_prefix_and_policy() {
    assert!(split_verbose_move_stats("info depth 1 wdl 1 2 3").is_none());
    assert!(split_verbose_move_stats("info string e2e4 N: 12 (Q: 0.1)").is_none());
    assert!(split_verbose_move_stats("info string ").is_none());
}

#[test]
fn split_verbose_stats_strips_repeated_percent_signs() {
    let (m, p, q) = split_verbose_move_stats("info string g1f3 (P: 7.25 %% ) (Q: -0.01 )").unwrap();
    assert_eq!(m, "g1f3");
    assert_eq!(p, "7.25");
    assert_eq!(q, Some("-0.01".to_string()));
}
