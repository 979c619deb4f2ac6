use std::collections::HashSet;

use chess_meta::nn::policy_map::{
    flip_move, flip_rank_char, generate_move_table, move_to_nn_index, nn_index_to_move,
    square_to_str,
};

#[test]
fn move_table_has_1858_entries() {
    assert_eq!(generate_move_table().len(), 1858);
}

#[test]
fn move_table_has_no_duplicates() {
    let distinct: HashSet<String> = generate_move_table().into_iter().collect();
    assert_eq!(distinct.len(), 1858);
}

#[test]
fn e2e4_has_an_index() {
    assert!(generate_move_table().contains(&"e2e4".to_string()));
}

#[test]
fn knight_move_g1f3_has_an_index() {
    assert!(generate_move_table().contains(&"g1f3".to_string()));
}

#[test]
fn underpromotion_a7a8n_has_an_index() {
    assert!(generate_move_table().contains(&"a7a8n".to_string()));
}

#[test]
fn queen_promotion_not_in_table() {
    let table = generate_move_table();
    // Queen promotions are encoded as regular moves (no 'q' suffix).
    assert!(!table.contains(&"a7a8q".to_string()));
    // But the regular move "a7a8" IS in the table.
    assert!(table.contains(&"a7a8".to_string()));
}

#[test]
fn move_to_nn_index_strips_queen_promo() {
    let idx_plain = move_to_nn_index("a7a8", false);
    let idx_queen = move_to_nn_index("a7a8q", false);
    assert_eq!(idx_plain, idx_queen);
}

#[test]
fn move_to_nn_index_flip_reverses_rank() {
    // e7e5 for Black (flip=true) should map to e2e4
    let idx_flipped = move_to_nn_index("e7e5", true);
    let idx_direct = move_to_nn_index("e2e4", false);
    assert_eq!(idx_flipped, idx_direct);
}

#[test]
fn nn_index_to_move_roundtrips() {
    for (i, m) in generate_move_table().iter().enumerate() {
        let idx = move_to_nn_index(m, false).unwrap();
        assert_eq!(idx, i, "roundtrip failed for move '{m}'");
        let back = nn_index_to_move(i, false).unwrap();
        assert_eq!(&back, m, "reverse failed for index {i}");
    }
}

#[test]
fn flip_move_symmetric() {
    assert_eq!(flip_move("e2e4"), "e7e5");
    assert_eq!(flip_move("e7e5"), "e2e4");
    assert_eq!(flip_move("a7a8q"), "a2a1q");
}

#[test]
fn move_table_starts_with_first_queen_direction() {
    let table = generate_move_table();
    assert_eq!(table[0], "a1a2");
    assert_eq!(move_to_nn_index("a1a2", false), Some(0));
}

#[test]
fn unknown_moves_have_no_index() {
    assert_eq!(move_to_nn_index("a1a1", false), None);
    assert_eq!(move_to_nn_index("e2e4e", false), None);
    assert_eq!(move_to_nn_index("", false), None);
    assert_eq!(nn_index_to_move(1858, false), None);
}

#[test]
fn nn_index_to_move_with_flip_mirrors_back() {
    let idx = move_to_nn_index("e2e4", false).unwrap();
    assert_eq!(nn_index_to_move(idx, true), Some("e7e5".to_string()));
}

#[test]
fn flip_rank_char_mirrors_ranks() {
    assert_eq!(flip_rank_char('1'), '8');
    assert_eq!(flip_rank_char('8'), '1');
    assert_eq!(flip_rank_char('4'), '5');
}

#[test]
fn flip_move_twice_gives_the_move_back() {
    for m in ["g1f3", "e7e8n", "h2h1r"] {
        assert_eq!(flip_move(&flip_move(m)), m);
    }
}

#[test]
fn square_names() {
    assert_eq!(square_to_str(0, 0), "a1");
    assert_eq!(square_to_str(7, 7), "h8");
    assert_eq!(square_to_str(4, 1), "e2");
}

#[test]
fn black_moves_are_white_moves_mirrored() {
    for i in 0..1858 {
        let white = nn_index_to_move(i, false).expect("index below 1858");
        assert_eq!(nn_index_to_move(i, true), Some(flip_move(&white)));
    }
    assert_eq!(nn_index_to_move(1858, true), None);
}
