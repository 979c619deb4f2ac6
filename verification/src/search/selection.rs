use vstd::prelude::*;

use super::{ancestry, lemma_node_links, lemma_tree_bounds, nodes_wf, NodeId, SearchTree};

verus! {

/// The child that a choice `c` picks among `children`: the one at index `c`, or the last
/// one when `c` is past the end.
pub open spec fn picked_child(children: Seq<NodeId>, c: usize) -> NodeId {
    if c < children.len() {
        children[c as int]
    } else {
        children.last()
    }
}

/// Node `i` is where a selection stops: not expanded yet, or expanded without children.
pub open spec fn is_selection_leaf<S>(tree: &SearchTree<S>, i: int) -> bool {
    !tree.spec_nodes()[i].expanded || tree.spec_nodes()[i].children@.len() == 0
}

/// Every step of the path from the root down to `i` was taken at an expanded node with
/// children, to the child that `choose_child` picked there.
pub open spec fn chosen_path<S, C: Fn(&SearchTree<S>, NodeId) -> usize>(
    tree: &SearchTree<S>,
    choose_child: C,
    i: int,
) -> bool {
    let n = tree.spec_nodes();
    let a = ancestry(n, i);
    forall|k: int|
        1 <= k < a.len() ==> {
            let p = #[trigger] a[k];
            &&& n[p].expanded
            &&& n[p].children@.len() > 0
            &&& exists|c: usize|
                choose_child.ensures((tree, NodeId(p as u32)), c) && picked_child(n[p].children@, c)
                    == NodeId(a[k - 1] as u32)
        }
}

/// Descends from the root to a leaf: at every expanded node with children it moves to the
/// child that `choose_child` picks (PUCT at MAX nodes, sampling at CHANCE nodes in the
/// application; an index past the end picks the last child), and it stops at the first
/// node that is not expanded or has no children. Returns the leaf, its depth and the path
/// from the root to the leaf, both ends included.
pub fn select_with_path<S, C: Fn(&SearchTree<S>, NodeId) -> usize>(
    tree: &SearchTree<S>,
    choose_child: &C,
) -> (r: (NodeId, u32, Vec<NodeId>))
    requires
        tree.wf(),
        forall|id: NodeId| #[trigger] choose_child.requires((tree, id)),
    ensures
        r.0.0 < tree.spec_nodes().len(),
        is_selection_leaf(tree, r.0.0 as int),
        chosen_path(tree, *choose_child, r.0.0 as int),
        ancestry(tree.spec_nodes(), r.0.0 as int).len() == r.1 + 1,
        r.2@.len() == r.1 + 1,
        forall|j: int|
            0 <= j <= r.1 ==> #[trigger] r.2@[j] == NodeId(
                ancestry(tree.spec_nodes(), r.0.0 as int)[r.1 - j] as u32,
            ),
{
    let ghost n = tree.spec_nodes();
    let ghost root = tree.spec_root();
    let mut current = tree.root_id();
    let mut depth: u32 = 0;
    let mut path: Vec<NodeId> = Vec::new();
    path.push(current);
    proof {
        lemma_tree_bounds(n, root);
        lemma_node_links(n, root, root.0 as int);
        assert(ancestry(n, root.0 as int) == seq![root.0 as int]);
    }
    loop
        invariant
            tree.wf(),
            n == tree.spec_nodes(),
            root == tree.spec_root(),
            forall|id: NodeId| #[trigger] choose_child.requires((tree, id)),
            current.0 < n.len(),
            depth <= current.0,
            ancestry(n, current.0 as int).len() == depth + 1,
            chosen_path(tree, *choose_child, current.0 as int),
            path@.len() == depth + 1,
            forall|j: int|
                0 <= j <= depth ==> #[trigger] path@[j] == NodeId(
                    ancestry(n, current.0 as int)[depth - j] as u32,
                ),
        decreases n.len() - current.0,
    {
        let node = tree.get(current).unwrap();
        if !node.expanded || node.children.len() == 0 {
            return (current, depth, path);
        }
        let c = choose_child(tree, current);
        let last = node.children.len() - 1;
        let next = if c < node.children.len() {
            node.children[c]
        } else {
            node.children[last]
        };
        proof {
            lemma_node_links(n, root, current.0 as int);
            let kk: int = if c < node.children@.len() { c as int } else { last as int };
            assert(next == node.children@[kk]);
            assert(n[next.0 as int].parent == Some(NodeId(current.0 as u32)));
            let a = ancestry(n, current.0 as int);
            let b = ancestry(n, next.0 as int);
            assert(b == seq![next.0 as int].add(a));
            assert forall|k: int| 1 <= k < b.len() implies {
                let p = #[trigger] b[k];
                &&& n[p].expanded
                &&& n[p].children@.len() > 0
                &&& exists|c2: usize|
                    choose_child.ensures((tree, NodeId(p as u32)), c2) && picked_child(
                        n[p].children@,
                        c2,
                    ) == NodeId(b[k - 1] as u32)
            } by {
                if k == 1 {
                    assert(b[1] == current.0);
                    assert(NodeId(current.0 as u32) == current);
                    assert(picked_child(n[current.0 as int].children@, c) == next);
                    assert(NodeId(next.0 as u32) == next);
                } else {
                    assert(b[k] == a[k - 1]);
                    assert(b[k - 1] == a[k - 2]);
                }
            }
        }
        path.push(next);
        depth = depth + 1;
        current = next;
        proof {
            let b = ancestry(n, current.0 as int);
            assert forall|j: int| 0 <= j <= depth implies #[trigger] path@[j] == NodeId(
                b[depth - j] as u32,
            ) by {
                if j == depth {
                    assert(b[0] == current.0);
                }
            }
        }
    }
}

/// Descends from the root to a leaf as `select_with_path` does, and returns the leaf and
/// its depth.
pub fn select<S, C: Fn(&SearchTree<S>, NodeId) -> usize>(tree: &SearchTree<S>, choose_child: &C) -> (r: (
    NodeId,
    u32,
))
    requires
        tree.wf(),
        forall|id: NodeId| #[trigger] choose_child.requires((tree, id)),
    ensures
        r.0.0 < tree.spec_nodes().len(),
        is_selection_leaf(tree, r.0.0 as int),
        chosen_path(tree, *choose_child, r.0.0 as int),
        ancestry(tree.spec_nodes(), r.0.0 as int).len() == r.1 + 1,
{
    let (leaf, depth, _path) = select_with_path(tree, choose_child);
    (leaf, depth)
}

} // verus!
