use chess_meta::position::PositionState;
use chess_meta::search::{
    apply_virtual_loss, backpropagate, is_white_to_move_from_node, revert_virtual_loss, select,
    select_with_path, Node, NodeId, NodeType, SearchTree,
};
use chess_meta::coordinator::{expand_leaf, plan_leaf, tree_snapshot_entries, LeafPlan};
use chess_meta::position::GameOutcome;
use chess_meta::search::nodes_well_formed;

/// What the search keeps per node besides the tree itself.
#[derive(Debug, Clone, PartialEq)]
struct Stats {
    total_value: f64,
    prior: f64,
}

fn stats(prior: f64) -> Stats {
    Stats { total_value: 0.0, prior }
}

/// Average value from White's perspective (0.5 while unvisited).
fn q_value(node: &Node<Stats>) -> f64 {
    if node.visit_count == 0 {
        0.5
    } else {
        node.stats.total_value / node.visit_count as f64
    }
}

fn backprop(tree: &mut SearchTree<Stats>, leaf: NodeId, value_white: f64) {
    backpropagate(tree, leaf, &|s: &Stats| Stats {
        total_value: s.total_value + value_white,
        prior: s.prior,
    });
}

/// Picks the first child at every step.
fn first_child(_tree: &SearchTree<Stats>, _id: NodeId) -> usize {
    0
}

struct TreeBuilder {
    tree: SearchTree<Stats>,
}

impl TreeBuilder {
    fn new() -> Self {
        Self { tree: SearchTree::new("startpos".to_string(), String::new(), NodeType::Max, stats(0.0)) }
    }

    fn with_child(
        mut self,
        parent_id: NodeId,
        move_uci: &str,
        node_type: NodeType,
        prior: f64,
        visits: u64,
        q_white: f64,
    ) -> Self {
        let id = self.tree.add_child(
            parent_id,
            move_uci.to_string(),
            node_type,
            format!("pos_after_{move_uci}"),
            if parent_id == NodeId(0) { move_uci.to_string() } else { format!("e2e4 {move_uci}") },
            stats(prior),
        );
        let node = self.tree.get_mut(id).unwrap();
        node.visit_count = visits;
        node.stats.total_value = q_white * visits as f64;
        self
    }

    fn expanded(mut self, node_id: NodeId) -> Self {
        self.tree.get_mut(node_id).unwrap().expanded = true;
        self
    }

    fn build(self) -> SearchTree<Stats> {
        self.tree
    }
}

/// A small tree from the start position with a few expanded MAX and CHANCE nodes.
fn build_test_tree() -> SearchTree<Stats> {
    let start = PositionState::startpos();
    let mut tree = SearchTree::new(start.epd.clone(), start.move_sequence.clone(), NodeType::Max, stats(0.0));

    let pos_e4 = start.apply_uci("e2e4").unwrap();
    let pos_d4 = start.apply_uci("d2d4").unwrap();
    let pos_nf3 = start.apply_uci("g1f3").unwrap();

    let e4_id = tree.add_child(NodeId(0), "e2e4".into(), NodeType::Chance, pos_e4.epd.clone(), pos_e4.move_sequence.clone(), stats(0.45));
    let d4_id = tree.add_child(NodeId(0), "d2d4".into(), NodeType::Chance, pos_d4.epd.clone(), pos_d4.move_sequence.clone(), stats(0.35));
    let _nf3_id = tree.add_child(NodeId(0), "g1f3".into(), NodeType::Chance, pos_nf3.epd.clone(), pos_nf3.move_sequence.clone(), stats(0.20));
    tree.root_mut().expanded = true;

    let pos_e4_e5 = pos_e4.apply_uci("e7e5").unwrap();
    let pos_e4_c5 = pos_e4.apply_uci("c7c5").unwrap();
    let e4_e5_id = tree.add_child(e4_id, "e7e5".into(), NodeType::Max, pos_e4_e5.epd.clone(), pos_e4_e5.move_sequence.clone(), stats(0.40));
    let _e4_c5_id = tree.add_child(e4_id, "c7c5".into(), NodeType::Max, pos_e4_c5.epd.clone(), pos_e4_c5.move_sequence.clone(), stats(0.35));
    tree.get_mut(e4_id).unwrap().expanded = true;

    backprop(&mut tree, e4_e5_id, 0.55);
    backprop(&mut tree, e4_e5_id, 0.60);
    backprop(&mut tree, d4_id, 0.50);
    tree
}

#[test]
fn backprop_updates_leaf_and_ancestors() {
    let mut tree = TreeBuilder::new()
        .with_child(NodeId(0), "e2e4", NodeType::Chance, 0.5, 0, 0.0)
        .expanded(NodeId(0))
        .build();
    let child_id = tree.root().children[0];

    backprop(&mut tree, child_id, 0.7);

    assert_eq!(tree.root().visit_count, 1);
    assert!((q_value(tree.root()) - 0.7).abs() < 0.001);
    assert_eq!(tree.get(child_id).unwrap().visit_count, 1);
    assert!((q_value(tree.get(child_id).unwrap()) - 0.7).abs() < 0.001);
}

#[test]
fn backprop_accumulates_across_multiple_visits() {
    let mut tree = TreeBuilder::new()
        .with_child(NodeId(0), "e2e4", NodeType::Chance, 0.5, 0, 0.0)
        .expanded(NodeId(0))
        .build();
    let child_id = tree.root().children[0];

    backprop(&mut tree, child_id, 0.8);
    backprop(&mut tree, child_id, 0.4);

    assert_eq!(tree.root().visit_count, 2);
    assert!((q_value(tree.root()) - 0.6).abs() < 0.001);
}

#[test]
fn backprop_three_levels_deep() {
    let mut tree = TreeBuilder::new()
        .with_child(NodeId(0), "e2e4", NodeType::Chance, 0.5, 0, 0.0)
        .expanded(NodeId(0))
        .build();
    let child_id = tree.root().children[0];
    let grandchild_id = tree.add_child(
        child_id,
        "e7e5".to_string(),
        NodeType::Max,
        "pos3".to_string(),
        "e2e4 e7e5".to_string(),
        stats(0.3),
    );

    backprop(&mut tree, grandchild_id, 0.6);

    assert_eq!(tree.root().visit_count, 1);
    assert_eq!(tree.get(child_id).unwrap().visit_count, 1);
    assert_eq!(tree.get(grandchild_id).unwrap().visit_count, 1);
    assert!((q_value(tree.root()) - 0.6).abs() < 0.001);
}

#[test]
fn is_white_to_move_startpos_returns_true() {
    let node = Node::new(NodeId(0), None, None, NodeType::Max, "start".into(), "".into(), stats(0.0));
    assert!(is_white_to_move_from_node(&node));
}

#[test]
fn is_white_to_move_after_one_move_returns_false() {
    let node = Node::new(NodeId(0), None, None, NodeType::Max, "pos".into(), "e2e4".into(), stats(0.0));
    assert!(!is_white_to_move_from_node(&node));
}

#[test]
fn is_white_to_move_after_two_moves_returns_true() {
    let node = Node::new(NodeId(0), None, None, NodeType::Max, "pos".into(), "e2e4 e7e5".into(), stats(0.0));
    assert!(is_white_to_move_from_node(&node));
}

#[test]
fn q_value_defaults_to_half_when_unvisited() {
    let node = Node::new(NodeId(0), None, None, NodeType::Max, "pos".into(), "".into(), stats(0.0));
    assert!((q_value(&node) - 0.5).abs() < 0.001);
}

#[test]
fn selection_select_returns_unexpanded_leaf() {
    let tree = TreeBuilder::new()
        .with_child(NodeId(0), "e2e4", NodeType::Chance, 0.5, 0, 0.0)
        .expanded(NodeId(0))
        .build();

    let (leaf, _depth) = select(&tree, &first_child);
    assert_ne!(leaf, NodeId(0));
    assert!(!tree.get(leaf).unwrap().expanded);
}

#[test]
fn select_returns_root_when_unexpanded() {
    let tree = TreeBuilder::new().build();
    let (leaf, depth) = select(&tree, &first_child);
    assert_eq!(leaf, NodeId(0));
    assert_eq!(depth, 0);
}

#[test]
fn tree_visit_counts_sum_correctly() {
    let tree = build_test_tree();
    let root = tree.root();
    let child_visits: u64 = root.children.iter().map(|&id| tree.get(id).unwrap().visit_count).sum();
    assert_eq!(root.visit_count, child_visits);
}

#[test]
fn tree_values_stay_in_range() {
    let tree = build_test_tree();
    for node in tree.nodes() {
        let q = q_value(node);
        assert!((0.0..=1.0).contains(&q), "node {:?} has q_value {q} outside [0, 1]", node.id);
    }
}

#[test]
fn node_types_alternate() {
    let tree = build_test_tree();
    for node in tree.nodes() {
        for &child_id in &node.children {
            let child = tree.get(child_id).unwrap();
            let expected = match node.node_type {
                NodeType::Max => NodeType::Chance,
                NodeType::Chance => NodeType::Max,
            };
            assert_eq!(child.node_type, expected);
        }
    }
}

#[test]
fn parent_child_links_consistent() {
    let tree = build_test_tree();
    for node in tree.nodes() {
        let id = node.id;
        for &child_id in &node.children {
            let child = tree.get(child_id).unwrap();
            assert_eq!(child.parent, Some(id));
        }
        if let Some(parent_id) = node.parent {
            let parent = tree.get(parent_id).unwrap();
            assert!(parent.children.contains(&id));
        }
    }
}

#[test]
fn backprop_increments_all_ancestors() {
    let start = PositionState::startpos();
    let mut tree = SearchTree::new(start.epd.clone(), start.move_sequence.clone(), NodeType::Max, stats(0.0));

    let pos_e4 = start.apply_uci("e2e4").unwrap();
    let e4_id = tree.add_child(NodeId(0), "e2e4".into(), NodeType::Chance, pos_e4.epd.clone(), pos_e4.move_sequence.clone(), stats(0.5));
    tree.root_mut().expanded = true;

    let pos_e5 = pos_e4.apply_uci("e7e5").unwrap();
    let e5_id = tree.add_child(e4_id, "e7e5".into(), NodeType::Max, pos_e5.epd.clone(), pos_e5.move_sequence.clone(), stats(0.4));
    tree.get_mut(e4_id).unwrap().expanded = true;

    backprop(&mut tree, e5_id, 0.6);

    assert_eq!(tree.get(e5_id).unwrap().visit_count, 1);
    assert_eq!(tree.get(e4_id).unwrap().visit_count, 1);
    assert_eq!(tree.root().visit_count, 1);
    assert!((tree.get(e5_id).unwrap().stats.total_value - 0.6).abs() < 1e-9);
    assert!((tree.get(e4_id).unwrap().stats.total_value - 0.6).abs() < 1e-9);
    assert!((tree.root().stats.total_value - 0.6).abs() < 1e-9);
}

#[test]
fn multiple_backprops_accumulate() {
    let start = PositionState::startpos();
    let mut tree = SearchTree::new(start.epd.clone(), start.move_sequence.clone(), NodeType::Max, stats(0.0));

    let pos_e4 = start.apply_uci("e2e4").unwrap();
    let e4_id = tree.add_child(NodeId(0), "e2e4".into(), NodeType::Chance, pos_e4.epd.clone(), pos_e4.move_sequence.clone(), stats(0.5));
    tree.root_mut().expanded = true;

    backprop(&mut tree, e4_id, 0.6);
    backprop(&mut tree, e4_id, 0.4);
    backprop(&mut tree, e4_id, 0.8);

    assert_eq!(tree.get(e4_id).unwrap().visit_count, 3);
    let expected_q = (0.6 + 0.4 + 0.8) / 3.0;
    assert!((q_value(tree.get(e4_id).unwrap()) - expected_q).abs() < 1e-9);
}

#[test]
fn search_integration_select_returns_unexpanded_leaf() {
    let tree = build_test_tree();
    let (leaf, _depth) = select(&tree, &first_child);
    let node = tree.get(leaf).unwrap();
    assert!(!node.expanded || node.children.is_empty());
}

#[test]
fn position_epd_consistency_across_tree() {
    let tree = build_test_tree();
    for node in tree.nodes() {
        if node.move_sequence.is_empty() {
            let pos = PositionState::startpos();
            assert_eq!(node.epd, pos.epd, "root EPD mismatch");
        } else {
            let pos = PositionState::from_moves(&node.move_sequence).unwrap();
            assert_eq!(node.epd, pos.epd, "EPD mismatch for move sequence '{}'", node.move_sequence);
        }
    }
}

#[test]
fn backprop_leaves_other_branches_alone() {
    let mut tree = build_test_tree();
    let before: Vec<u64> = tree.nodes().iter().map(|n| n.visit_count).collect();
    let d4_id = tree.root().children[1];
    backprop(&mut tree, d4_id, 0.3);
    for node in tree.nodes() {
        let i = node.id.index();
        let on_path = i == 0 || node.id == d4_id;
        assert_eq!(node.visit_count, before[i] + if on_path { 1 } else { 0 });
    }
}

#[test]
fn select_with_path_follows_the_choices() {
    let tree = build_test_tree();
    // First child everywhere: root -> e2e4 -> e7e5 (not expanded).
    let (leaf, depth, path) = select_with_path(&tree, &first_child);
    assert_eq!(depth, 2);
    assert_eq!(path.len(), 3);
    assert_eq!(path[0], NodeId(0));
    assert_eq!(tree.get(path[1]).unwrap().move_uci.as_deref(), Some("e2e4"));
    assert_eq!(tree.get(leaf).unwrap().move_uci.as_deref(), Some("e7e5"));
    assert_eq!(path[2], leaf);
}

#[test]
fn select_index_past_the_end_picks_the_last_child() {
    let tree = build_test_tree();
    let (leaf, depth) = select(&tree, &|_t: &SearchTree<Stats>, _id: NodeId| 99usize);
    assert_eq!(depth, 1);
    assert_eq!(tree.get(leaf).unwrap().move_uci.as_deref(), Some("g1f3"));
}

#[test]
fn revert_virtual_loss_undoes_apply() {
    let mut tree = build_test_tree();
    let before: Vec<u64> = tree.nodes().iter().map(|n| n.visit_count).collect();
    let (_leaf, _depth, path) = select_with_path(&tree, &first_child);
    apply_virtual_loss(&mut tree, &path);
    for &id in &path {
        assert_eq!(tree.get(id).unwrap().visit_count, before[id.index()] + 1);
    }
    revert_virtual_loss(&mut tree, &path);
    let after: Vec<u64> = tree.nodes().iter().map(|n| n.visit_count).collect();
    assert_eq!(before, after);
}

#[test]
fn add_child_appends_fresh_node() {
    let mut tree = TreeBuilder::new().build();
    let a = tree.add_child(NodeId(0), "e2e4".into(), NodeType::Chance, "p1".into(), "e2e4".into(), stats(0.6));
    let b = tree.add_child(NodeId(0), "d2d4".into(), NodeType::Chance, "p2".into(), "d2d4".into(), stats(0.4));
    assert_eq!(a, NodeId(1));
    assert_eq!(b, NodeId(2));
    assert_eq!(tree.node_count(), 3);
    assert_eq!(tree.root().children, vec![a, b]);
    let child = tree.get(b).unwrap();
    assert_eq!(child.parent, Some(NodeId(0)));
    assert_eq!(child.visit_count, 0);
    assert!(!child.expanded);
    assert_eq!(child.stats, stats(0.4));
    assert!(tree.get(NodeId(3)).is_none());
}

#[test]
fn tree_snapshot_lists_visited_nodes_depth_first() {
    let tree = build_test_tree();
    // Visits: root 3, e2e4 2, d2d4 1, g1f3 0, e7e5 2, c7c5 0.
    let all = tree_snapshot_entries(&tree, 0);
    let names: Vec<(Option<&str>, u32)> = all
        .iter()
        .map(|(id, d)| (tree.get(*id).unwrap().move_uci.as_deref(), *d))
        .collect();
    assert_eq!(
        names,
        vec![
            (None, 0),
            (Some("g1f3"), 1),
            (Some("d2d4"), 1),
            (Some("e2e4"), 1),
            (Some("c7c5"), 2),
            (Some("e7e5"), 2)
        ]
    );
    let busy = tree_snapshot_entries(&tree, 2);
    let ids: Vec<NodeId> = busy.iter().map(|(id, _)| *id).collect();
    assert_eq!(ids.len(), 3);
    assert_eq!(ids[0], NodeId(0));
    assert_eq!(tree.get(ids[1]).unwrap().move_uci.as_deref(), Some("e2e4"));
    assert_eq!(tree.get(ids[2]).unwrap().move_uci.as_deref(), Some("e7e5"));
}

#[test]
fn expand_leaf_adds_playable_moves() {
    let start = PositionState::startpos();
    let mut tree = SearchTree::new(start.epd.clone(), start.move_sequence.clone(), NodeType::Max, stats(0.0));
    let candidates = vec![
        ("e2e4".to_string(), stats(0.5)),
        ("e2e5".to_string(), stats(0.2)),
        ("zz".to_string(), stats(0.1)),
        ("g1f3".to_string(), stats(0.3)),
    ];
    let results = expand_leaf(&mut tree, NodeId(0), &start, candidates);
    assert_eq!(results.len(), 4);
    assert_eq!(results[0], Ok((NodeId(1), None)));
    assert_eq!(results[1], Err("Illegal move 'e2e5': illegal uci".to_string()));
    assert_eq!(results[2], Err("Invalid UCI move 'zz': invalid uci".to_string()));
    assert_eq!(results[3], Ok((NodeId(2), None)));
    let root = tree.root();
    assert!(root.expanded);
    assert_eq!(root.children, vec![NodeId(1), NodeId(2)]);
    let nf3 = tree.get(NodeId(2)).unwrap();
    assert_eq!(nf3.node_type, NodeType::Chance);
    assert_eq!(nf3.move_sequence, "g1f3");
    assert_eq!(nf3.stats, stats(0.3));
    assert_eq!(nf3.epd, start.apply_uci("g1f3").unwrap().epd);

    // A mating move reports the finished game.
    let before_mate = PositionState::from_moves("e2e4 e7e5 d1h5 b8c6 f1c4 g8f6").unwrap();
    let mut t2 = SearchTree::new(before_mate.epd.clone(), before_mate.move_sequence.clone(), NodeType::Max, stats(0.0));
    let r2 = expand_leaf(&mut t2, NodeId(0), &before_mate, vec![("h5f7".to_string(), stats(1.0))]);
    assert_eq!(r2, vec![Ok((NodeId(1), Some(GameOutcome::WhiteWins)))]);
}

#[test]
fn stored_nodes_are_checked_before_rebuilding() {
    let tree = build_test_tree();
    let nodes: Vec<Node<Stats>> = tree.nodes().clone();
    assert!(nodes_well_formed(&nodes, NodeId(0)));
    let rebuilt = SearchTree::from_nodes(nodes.clone(), NodeId(0), nodes.len() as u32);
    assert_eq!(rebuilt.node_count(), tree.node_count());

    let mut broken = nodes.clone();
    broken[2].parent = Some(NodeId(4));
    assert!(!nodes_well_formed(&broken, NodeId(0)));
    let mut twice = nodes.clone();
    let first = twice[0].children[0];
    twice[0].children.push(first);
    assert!(!nodes_well_formed(&twice, NodeId(0)));
    assert!(!nodes_well_formed(&nodes, NodeId(1)));
    assert!(!nodes_well_formed(&Vec::<Node<Stats>>::new(), NodeId(0)));
}

#[test]
fn node_type_alternates() {
    assert_eq!(NodeType::Max.child(), NodeType::Chance);
    assert_eq!(NodeType::Chance.child(), NodeType::Max);
}

#[test]
fn mark_expanded_sets_only_the_flag() {
    let mut tree = build_test_tree();
    let g1f3 = tree.root().children[2];
    let before = tree.get(g1f3).unwrap().clone();
    tree.mark_expanded(g1f3);
    let after = tree.get(g1f3).unwrap();
    assert!(after.expanded);
    assert_eq!(after.visit_count, before.visit_count);
    assert_eq!(after.children, before.children);
}

#[test]
fn test_backpropagate() {
    let mut tree = SearchTree::new("startpos".to_string(), String::new(), NodeType::Max, stats(0.0));
    let child_id = tree.add_child(
        NodeId(0),
        "e2e4".to_string(),
        NodeType::Chance,
        "after_e4".to_string(),
        "e2e4".to_string(),
        stats(0.5),
    );

    backprop(&mut tree, child_id, 0.7);

    assert_eq!(tree.root().visit_count, 1);
    assert!((q_value(tree.root()) - 0.7).abs() < 0.001);
    assert_eq!(tree.get(child_id).unwrap().visit_count, 1);
}

#[test]
fn tree_snapshot_hides_unvisited_subtrees() {
    let tree = build_test_tree();
    for (id, depth) in tree_snapshot_entries(&tree, 1) {
        let node = tree.get(id).unwrap();
        assert!(node.visit_count >= 1 || id == NodeId(0));
        assert!(depth <= 20);
    }
}

#[test]
fn leaf_plans_follow_the_decision_order() {
    let start = PositionState::startpos();
    let mut tree = SearchTree::new(start.epd.clone(), start.move_sequence.clone(), NodeType::Max, stats(0.0));
    // A stored terminal value comes first.
    assert!(matches!(plan_leaf(&tree, NodeId(0), true), Ok(LeafPlan::StoredTerminal)));
    // A fresh position needs an evaluation.
    match plan_leaf(&tree, NodeId(0), false) {
        Ok(LeafPlan::Evaluate(p)) => assert_eq!(p.epd, start.epd),
        _ => panic!("expected an evaluation"),
    }
    // An expanded leaf with a stored evaluation reuses it.
    tree.get_mut(NodeId(0)).unwrap().wdl = Some((400, 300, 300));
    tree.mark_expanded(NodeId(0));
    assert!(matches!(plan_leaf(&tree, NodeId(0), false), Ok(LeafPlan::StoredWdl((400, 300, 300)))));
    // A finished game is scored without an evaluation.
    let mate = PositionState::from_moves("f2f3 e7e5 g2g4 d8h4").unwrap();
    let t2 = SearchTree::new(mate.epd.clone(), mate.move_sequence.clone(), NodeType::Max, stats(0.0));
    assert!(matches!(plan_leaf(&t2, NodeId(0), false), Ok(LeafPlan::Finished(GameOutcome::BlackWins))));
    // A leaf whose moves cannot be replayed gives the error.
    let t3 = SearchTree::new(String::new(), "e2e5".to_string(), NodeType::Max, stats(0.0));
    assert!(matches!(plan_leaf(&t3, NodeId(0), false), Err(e) if e == "Illegal move 'e2e5': illegal uci"));
}
