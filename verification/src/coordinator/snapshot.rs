use vstd::prelude::*;

use crate::search::{lemma_node_links, lemma_tree_bounds, nodes_wf, Node, NodeId, SearchTree};

verus! {

/// How deep below the root the tree view reaches.
pub const SNAPSHOT_MAX_DEPTH: u32 = 20;

/// Whether node `i` is shown in the tree view: the root always, any other node once it has
/// at least `min_visits` visits.
pub open spec fn shown<S>(n: Seq<Node<S>>, root: int, min_visits: u64, i: int) -> bool {
    n[i].visit_count >= min_visits || i == root
}

/// The tree-view entries below and including node `i` at depth `d`: the node itself when it
/// is shown, then (above the depth limit) the entries of its children from the last child
/// to the first; a node that is not shown hides its whole subtree.
pub open spec fn snapshot_from<S>(n: Seq<Node<S>>, root: int, min_visits: u64, i: int, d: int) -> Seq<(NodeId, u32)>
    decreases n.len() - i, 1int, 0int,
{
    if 0 <= i < n.len() && shown(n, root, min_visits, i) {
        seq![(NodeId(i as u32), d as u32)] + if d < SNAPSHOT_MAX_DEPTH {
            snapshot_children(n, root, min_visits, i, n[i].children@, d + 1)
        } else {
            seq![]
        }
    } else {
        seq![]
    }
}

/// The entries of the children `cs` of node `parent`, at depth `d`, last child first.
pub open spec fn snapshot_children<S>(
    n: Seq<Node<S>>,
    root: int,
    min_visits: u64,
    parent: int,
    cs: Seq<NodeId>,
    d: int,
) -> Seq<(NodeId, u32)>
    decreases n.len() - parent, 0int, cs.len(),
{
    if cs.len() == 0 {
        seq![]
    } else {
        let c = cs.last().0 as int;
        (if 0 <= parent < c < n.len() {
            snapshot_from(n, root, min_visits, c, d)
        } else {
            seq![]
        }) + snapshot_children(n, root, min_visits, parent, cs.drop_last(), d)
    }
}

/// The entries still owed for a stack of (node, depth) pairs, the top of the stack first.
pub open spec fn pending<S>(n: Seq<Node<S>>, root: int, min_visits: u64, st: Seq<(NodeId, u32)>) -> Seq<(NodeId, u32)>
    decreases st.len(),
{
    if st.len() == 0 {
        seq![]
    } else {
        snapshot_from(n, root, min_visits, st.last().0.0 as int, st.last().1 as int) + pending(
            n,
            root,
            min_visits,
            st.drop_last(),
        )
    }
}

/// Pushing the children of `parent` (first child first) owes their entries, last child
/// first, ahead of what the stack already owed.
proof fn lemma_pending_push_children<S>(
    n: Seq<Node<S>>,
    root: int,
    min_visits: u64,
    st: Seq<(NodeId, u32)>,
    parent: int,
    cs: Seq<NodeId>,
    d: u32,
)
    requires
        forall|k: int| 0 <= k < cs.len() ==> parent < (#[trigger] cs[k]).0 < n.len(),
        0 <= parent,
    ensures
        pending(n, root, min_visits, st + cs.map_values(|c: NodeId| (c, d))) == snapshot_children(
            n,
            root,
            min_visits,
            parent,
            cs,
            d as int,
        ) + pending(n, root, min_visits, st),
    decreases cs.len(),
{
    let ext = st + cs.map_values(|c: NodeId| (c, d));
    if cs.len() == 0 {
        assert(ext =~= st);
        assert(snapshot_children(n, root, min_visits, parent, cs, d as int) =~= seq![]);
        assert(pending(n, root, min_visits, st) == seq![] + pending(n, root, min_visits, st));
    } else {
        let init = cs.drop_last();
        lemma_pending_push_children(n, root, min_visits, st, parent, init, d);
        let ext2 = st + init.map_values(|c: NodeId| (c, d));
        assert(ext.drop_last() =~= ext2);
        assert(ext.last() == (cs.last(), d));
        let c = cs.last().0 as int;
        assert(parent < c < n.len()) by {
            assert(cs[cs.len() - 1] == cs.last());
        }
        assert(pending(n, root, min_visits, ext) =~= snapshot_children(
            n,
            root,
            min_visits,
            parent,
            cs,
            d as int,
        ) + pending(n, root, min_visits, st));
    }
}

/// The tree-view entries of a tree, in the order the view lists them: a depth-first walk
/// from the root that lists a node, then the subtrees of its children from the last child
/// to the first, skipping the subtrees of nodes with fewer than `min_visits` visits (the
/// root is always listed) and going no deeper than `SNAPSHOT_MAX_DEPTH`. Each entry is a
/// node and its depth.
pub fn tree_snapshot_entries<S>(tree: &SearchTree<S>, min_visits: u64) -> (r: Vec<(NodeId, u32)>)
    requires
        tree.wf(),
    ensures
        r@ == snapshot_from(tree.spec_nodes(), tree.spec_root().0 as int, min_visits, tree.spec_root().0 as int, 0),
        lists_shown_children(tree.spec_nodes(), tree.spec_root().0 as int, min_visits, r@),
{
    let ghost n = tree.spec_nodes();
    let root_id = tree.root_id();
    let ghost root = root_id.0 as int;
    let ghost total = snapshot_from(n, root, min_visits, root, 0);
    let mut out: Vec<(NodeId, u32)> = Vec::new();
    let mut stack: Vec<(NodeId, u32)> = Vec::new();
    stack.push((root_id, 0));
    proof {
        lemma_tree_bounds(n, tree.spec_root());
        assert(stack@.drop_last() =~= Seq::<(NodeId, u32)>::empty());
        assert(pending(n, root, min_visits, stack@.drop_last()) == Seq::<(NodeId, u32)>::empty());
        assert(stack@.last() == (root_id, 0u32));
        assert(pending(n, root, min_visits, stack@) == total + Seq::<(NodeId, u32)>::empty());
        assert(pending(n, root, min_visits, stack@) =~= total);
    }
    while stack.len() > 0
        invariant
            tree.wf(),
            n == tree.spec_nodes(),
            root == tree.spec_root().0,
            root_id == tree.spec_root(),
            total == snapshot_from(n, root, min_visits, root, 0),
            out@ + pending(n, root, min_visits, stack@) == total,
            forall|k: int|
                0 <= k < stack@.len() ==> (#[trigger] stack@[k]).0.0 < n.len() && stack@[k].1
                    <= SNAPSHOT_MAX_DEPTH,
        decreases total.len() - out@.len(), stack@.len(),
    {
        let ghost st = stack@;
        let (id, depth) = stack.pop().unwrap();
        proof {
            assert(st.last() == st[st.len() - 1]);
            assert(stack@ == st.drop_last());
        }
        let node = tree.get(id).unwrap();
        if node.visit_count >= min_visits || id == root_id {
            out.push((id, depth));
            if depth < SNAPSHOT_MAX_DEPTH {
                proof {
                    lemma_node_links(n, tree.spec_root(), id.0 as int);
                }
                let ghost base = stack@;
                let mut j: usize = 0;
                while j < node.children.len()
                    invariant
                        j <= node.children@.len(),
                        stack@ == base + node.children@.take(j as int).map_values(
                            |c: NodeId| (c, (depth + 1) as u32),
                        ),
                        forall|k: int| 0 <= k < base.len() ==> (#[trigger] base[k]).0.0 < n.len()
                            && base[k].1 <= SNAPSHOT_MAX_DEPTH,
                        forall|k: int|
                            0 <= k < node.children@.len() ==> id.0 < (#[trigger] node.children@[k]).0 < n.len(),
                        depth < SNAPSHOT_MAX_DEPTH,
                    decreases node.children@.len() - j,
                {
                    stack.push((node.children[j], depth + 1));
                    proof {
                        assert(node.children@.take(j + 1) =~= node.children@.take(j as int).push(node.children@[j as int]));
                        assert(stack@ =~= base + node.children@.take(j + 1).map_values(
                            |c: NodeId| (c, (depth + 1) as u32),
                        ));
                    }
                    j += 1;
                }
                proof {
                    assert(node.children@.take(node.children@.len() as int) =~= node.children@);
                    lemma_pending_push_children(n, root, min_visits, base, id.0 as int, node.children@, (depth + 1) as u32);
                    assert(node.id == NodeId(id.0 as u32));
                    assert(NodeId(id.0 as u32) == id);
                    assert(out@ + pending(n, root, min_visits, stack@) =~= total);
                }
            } else {
                proof {
                    assert(out@ + pending(n, root, min_visits, stack@) =~= total);
                }
            }
        } else {
            proof {
                assert(snapshot_from(n, root, min_visits, id.0 as int, depth as int) =~= seq![]);
                assert(out@ + pending(n, root, min_visits, stack@) =~= total);
            }
        }
    }
    proof {
        assert(out@ =~= total);
        lemma_snapshot_lists_shown_children(n, tree.spec_root(), min_visits);
    }
    out
}

/// A tree-view entry names a node of the tree that is shown, at a depth within the limit.
pub open spec fn entry_ok<S>(n: Seq<Node<S>>, root: int, min_visits: u64, e: (NodeId, u32)) -> bool {
    &&& 0 <= e.0.0 < n.len()
    &&& shown(n, root, min_visits, e.0.0 as int)
    &&& e.1 <= SNAPSHOT_MAX_DEPTH
}

proof fn lemma_concat_ok<S>(
    n: Seq<Node<S>>,
    root: int,
    min_visits: u64,
    a: Seq<(NodeId, u32)>,
    b: Seq<(NodeId, u32)>,
)
    requires
        forall|k: int| 0 <= k < a.len() ==> entry_ok(n, root, min_visits, #[trigger] a[k]),
        forall|k: int| 0 <= k < b.len() ==> entry_ok(n, root, min_visits, #[trigger] b[k]),
    ensures
        forall|k: int| 0 <= k < (a + b).len() ==> entry_ok(n, root, min_visits, #[trigger] (a + b)[k]),
{
    assert forall|k: int| 0 <= k < (a + b).len() implies entry_ok(n, root, min_visits, #[trigger] (a + b)[k]) by {
        if k < a.len() {
            assert((a + b)[k] == a[k]);
        } else {
            assert((a + b)[k] == b[k - a.len()]);
        }
    }
}

proof fn lemma_snapshot_from_ok<S>(n: Seq<Node<S>>, root: int, min_visits: u64, i: int, d: int)
    requires
        n.len() <= u32::MAX,
        0 <= d <= SNAPSHOT_MAX_DEPTH,
    ensures
        forall|k: int|
            0 <= k < snapshot_from(n, root, min_visits, i, d).len() ==> entry_ok(
                n,
                root,
                min_visits,
                #[trigger] snapshot_from(n, root, min_visits, i, d)[k],
            ),
    decreases n.len() - i, 1int, 0int,
{
    if 0 <= i < n.len() && shown(n, root, min_visits, i) {
        let head = seq![(NodeId(i as u32), d as u32)];
        assert(entry_ok(n, root, min_visits, head[0]));
        let rest = if d < SNAPSHOT_MAX_DEPTH {
            snapshot_children(n, root, min_visits, i, n[i].children@, d + 1)
        } else {
            seq![]
        };
        if d < SNAPSHOT_MAX_DEPTH {
            lemma_snapshot_children_ok(n, root, min_visits, i, n[i].children@, d + 1);
        }
        lemma_concat_ok(n, root, min_visits, head, rest);
    }
}

proof fn lemma_snapshot_children_ok<S>(
    n: Seq<Node<S>>,
    root: int,
    min_visits: u64,
    parent: int,
    cs: Seq<NodeId>,
    d: int,
)
    requires
        n.len() <= u32::MAX,
        0 <= d <= SNAPSHOT_MAX_DEPTH,
        0 <= parent,
    ensures
        forall|k: int|
            0 <= k < snapshot_children(n, root, min_visits, parent, cs, d).len() ==> entry_ok(
                n,
                root,
                min_visits,
                #[trigger] snapshot_children(n, root, min_visits, parent, cs, d)[k],
            ),
    decreases n.len() - parent, 0int, cs.len(),
{
    if cs.len() > 0 {
        let c = cs.last().0 as int;
        let first = if 0 <= parent < c < n.len() {
            snapshot_from(n, root, min_visits, c, d)
        } else {
            seq![]
        };
        if 0 <= parent < c < n.len() {
            lemma_snapshot_from_ok(n, root, min_visits, c, d);
        }
        lemma_snapshot_children_ok(n, root, min_visits, parent, cs.drop_last(), d);
        lemma_concat_ok(
            n,
            root,
            min_visits,
            first,
            snapshot_children(n, root, min_visits, parent, cs.drop_last(), d),
        );
    }
}

/// The tree view shows only what it should: every entry is a node of the tree that is the
/// root or has at least `min_visits` visits, at a depth no greater than
/// `SNAPSHOT_MAX_DEPTH`; and the root comes first, at depth zero.
pub proof fn lemma_snapshot_shows_only_visited<S>(n: Seq<Node<S>>, root: NodeId, min_visits: u64)
    requires
        nodes_wf(n, root),
    ensures
        forall|k: int|
            0 <= k < snapshot_from(n, root.0 as int, min_visits, root.0 as int, 0).len() ==> entry_ok(
                n,
                root.0 as int,
                min_visits,
                #[trigger] snapshot_from(n, root.0 as int, min_visits, root.0 as int, 0)[k],
            ),
        snapshot_from(n, root.0 as int, min_visits, root.0 as int, 0).len() >= 1,
        snapshot_from(n, root.0 as int, min_visits, root.0 as int, 0)[0] == (root, 0u32),
{
    lemma_tree_bounds(n, root);
    lemma_snapshot_from_ok(n, root.0 as int, min_visits, root.0 as int, 0);
}

/// Every node's children come after it and lie in the tree.
pub open spec fn children_after<S>(n: Seq<Node<S>>) -> bool {
    forall|x: int, k: int|
        0 <= x < n.len() && 0 <= k < n[x].children@.len() ==> x < (#[trigger] n[x].children@[k]).0
            < n.len()
}

/// A list of tree-view entries goes on below each listed node down to depth 20: a child
/// of a node listed at depth `d < 20` is listed at depth `d + 1` when it has at least
/// `min_visits` visits (or is the root).
pub open spec fn lists_shown_children<S>(
    n: Seq<Node<S>>,
    root: int,
    min_visits: u64,
    l: Seq<(NodeId, u32)>,
) -> bool {
    forall|e: (NodeId, u32), c: NodeId|
        #![trigger l.contains(e), n[e.0.0 as int].children@.contains(c)]
        l.contains(e) && e.1 < 20 && n[e.0.0 as int].children@.contains(c) && (n[c.0 as int].visit_count
            >= min_visits || c.0 == root) ==> l.contains((c, (e.1 + 1) as u32))
}

proof fn lemma_concat_contains<A>(a: Seq<A>, b: Seq<A>, x: A)
    ensures
        (a + b).contains(x) <==> a.contains(x) || b.contains(x),
{
    if a.contains(x) {
        let k = choose|k: int| 0 <= k < a.len() && a[k] == x;
        assert((a + b)[k] == x);
    }
    if b.contains(x) {
        let k = choose|k: int| 0 <= k < b.len() && b[k] == x;
        assert((a + b)[a.len() + k] == x);
    }
    if (a + b).contains(x) {
        let k = choose|k: int| 0 <= k < (a + b).len() && (a + b)[k] == x;
        if k < a.len() {
            assert(a[k] == x);
        } else {
            assert(b[k - a.len()] == x);
        }
    }
}

proof fn lemma_children_has<S>(
    n: Seq<Node<S>>,
    root: int,
    min_visits: u64,
    parent: int,
    cs: Seq<NodeId>,
    d: int,
    c: NodeId,
)
    requires
        cs.contains(c),
        0 <= parent < c.0 < n.len(),
        shown(n, root, min_visits, c.0 as int),
        0 <= d <= SNAPSHOT_MAX_DEPTH,
    ensures
        snapshot_children(n, root, min_visits, parent, cs, d).contains((c, d as u32)),
    decreases cs.len(),
{
    let first = if 0 <= parent < cs.last().0 < n.len() {
        snapshot_from(n, root, min_visits, cs.last().0 as int, d)
    } else {
        seq![]
    };
    let rest = snapshot_children(n, root, min_visits, parent, cs.drop_last(), d);
    if cs.last() == c {
        assert(first[0] == (c, d as u32));
        assert(first.contains((c, d as u32)));
    } else {
        let k = choose|k: int| 0 <= k < cs.len() && cs[k] == c;
        assert(k != cs.len() - 1);
        assert(cs.drop_last()[k] == c);
        lemma_children_has(n, root, min_visits, parent, cs.drop_last(), d, c);
    }
    lemma_concat_contains(first, rest, (c, d as u32));
}

proof fn lemma_from_closed<S>(n: Seq<Node<S>>, root: int, min_visits: u64, i: int, d: int)
    requires
        children_after(n),
        n.len() <= u32::MAX,
        0 <= d <= SNAPSHOT_MAX_DEPTH,
    ensures
        lists_shown_children(n, root, min_visits, snapshot_from(n, root, min_visits, i, d)),
    decreases n.len() - i, 1int, 0int,
{
    let l = snapshot_from(n, root, min_visits, i, d);
    if 0 <= i < n.len() && shown(n, root, min_visits, i) {
        let head = seq![(NodeId(i as u32), d as u32)];
        let rest = if d < SNAPSHOT_MAX_DEPTH {
            snapshot_children(n, root, min_visits, i, n[i].children@, d + 1)
        } else {
            seq![]
        };
        assert(l == head + rest);
        if d < SNAPSHOT_MAX_DEPTH {
            lemma_children_closed(n, root, min_visits, i, n[i].children@, d + 1);
        }
        assert forall|e: (NodeId, u32), c: NodeId|
            #![trigger l.contains(e), n[e.0.0 as int].children@.contains(c)]
            l.contains(e) && e.1 < 20 && n[e.0.0 as int].children@.contains(c) && (
            n[c.0 as int].visit_count >= min_visits || c.0 == root) implies l.contains(
            (c, (e.1 + 1) as u32),
        ) by {
            lemma_concat_contains(head, rest, e);
            lemma_concat_contains(head, rest, (c, (e.1 + 1) as u32));
            if head.contains(e) {
                assert(e == head[0]);
                assert(e.0.0 as int == i);
                assert(e.1 as int == d);
                let k = choose|k: int| 0 <= k < n[i].children@.len() && n[i].children@[k] == c;
                assert(i < n[i].children@[k].0 < n.len());
                lemma_children_has(n, root, min_visits, i, n[i].children@, d + 1, c);
            }
        }
    }
}

proof fn lemma_children_closed<S>(
    n: Seq<Node<S>>,
    root: int,
    min_visits: u64,
    parent: int,
    cs: Seq<NodeId>,
    d: int,
)
    requires
        children_after(n),
        n.len() <= u32::MAX,
        0 <= d <= SNAPSHOT_MAX_DEPTH,
        0 <= parent,
    ensures
        lists_shown_children(n, root, min_visits, snapshot_children(n, root, min_visits, parent, cs, d)),
    decreases n.len() - parent, 0int, cs.len(),
{
    let l = snapshot_children(n, root, min_visits, parent, cs, d);
    if cs.len() > 0 {
        let c0 = cs.last().0 as int;
        let first = if 0 <= parent < c0 < n.len() {
            snapshot_from(n, root, min_visits, c0, d)
        } else {
            seq![]
        };
        let rest = snapshot_children(n, root, min_visits, parent, cs.drop_last(), d);
        assert(l == first + rest);
        if 0 <= parent < c0 < n.len() {
            lemma_from_closed(n, root, min_visits, c0, d);
        }
        lemma_children_closed(n, root, min_visits, parent, cs.drop_last(), d);
        assert forall|e: (NodeId, u32), c: NodeId|
            #![trigger l.contains(e), n[e.0.0 as int].children@.contains(c)]
            l.contains(e) && e.1 < 20 && n[e.0.0 as int].children@.contains(c) && (
            n[c.0 as int].visit_count >= min_visits || c.0 == root) implies l.contains(
            (c, (e.1 + 1) as u32),
        ) by {
            lemma_concat_contains(first, rest, e);
            lemma_concat_contains(first, rest, (c, (e.1 + 1) as u32));
        }
    }
}

/// The tree view goes as deep as it should: a node with at least `min_visits` visits is
/// listed at depth `d + 1` whenever its parent is listed at depth `d < 20`. So every such
/// node within depth 20 of the root whose ancestors are all shown is in the view.
pub proof fn lemma_snapshot_lists_shown_children<S>(n: Seq<Node<S>>, root: NodeId, min_visits: u64)
    requires
        nodes_wf(n, root),
    ensures
        lists_shown_children(
            n,
            root.0 as int,
            min_visits,
            snapshot_from(n, root.0 as int, min_visits, root.0 as int, 0),
        ),
{
    lemma_tree_bounds(n, root);
    assert forall|x: int, k: int|
        0 <= x < n.len() && 0 <= k < n[x].children@.len() implies x < (#[trigger] n[x].children@[k]).0
        < n.len() by {
        lemma_node_links(n, root, x);
    }
    lemma_from_closed(n, root.0 as int, min_visits, root.0 as int, 0);
}

} // verus!
