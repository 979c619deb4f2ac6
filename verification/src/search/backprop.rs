use vstd::prelude::*;

use super::{ancestry, lemma_ancestry, lemma_node_links, nodes_wf, shapes, Node, NodeId, SearchTree};

verus! {

/// `a` and `b` agree on every field but the visit count and the statistics.
pub open spec fn same_except_counts<S>(a: Node<S>, b: Node<S>) -> bool {
    &&& a.id == b.id
    &&& a.parent == b.parent
    &&& a.move_uci == b.move_uci
    &&& a.node_type == b.node_type
    &&& a.epd == b.epd
    &&& a.move_sequence == b.move_sequence
    &&& a.children == b.children
    &&& a.expanded == b.expanded
    &&& a.wdl == b.wdl
}

/// What backing up a value does to one node: a node on the path gets one more visit and
/// the statistics that `add_value` makes of its old ones; any other node stays as it was.
pub open spec fn backed_up<S, F: Fn(&S) -> S>(a: Node<S>, b: Node<S>, on_path: bool, add_value: F) -> bool {
    if on_path {
        &&& same_except_counts(a, b)
        &&& b.visit_count == a.visit_count + 1
        &&& add_value.ensures((&a.stats,), b.stats)
    } else {
        b == a
    }
}

/// How often node `i` occurs in `path`.
pub open spec fn occurrences(path: Seq<NodeId>, i: int) -> nat
    decreases path.len(),
{
    if path.len() == 0 {
        0
    } else {
        occurrences(path.drop_last(), i) + if path.last().0 == i {
            1nat
        } else {
            0nat
        }
    }
}

/// `b` is `a` with the visit count of each node raised by the number of times the node
/// occurs in `path`.
pub open spec fn virtual_loss_applied<S>(a: Seq<Node<S>>, b: Seq<Node<S>>, path: Seq<NodeId>) -> bool {
    &&& b.len() == a.len()
    &&& forall|i: int|
        0 <= i < a.len() ==> {
            &&& same_except_counts(#[trigger] a[i], b[i])
            &&& b[i].stats == a[i].stats
            &&& b[i].visit_count == a[i].visit_count + occurrences(path, i)
        }
}

/// `b` is `a` with the visit count of each node lowered by the number of times the node
/// occurs in `path`.
pub open spec fn virtual_loss_reverted<S>(a: Seq<Node<S>>, b: Seq<Node<S>>, path: Seq<NodeId>) -> bool {
    &&& b.len() == a.len()
    &&& forall|i: int|
        0 <= i < a.len() ==> {
            &&& same_except_counts(#[trigger] a[i], b[i])
            &&& b[i].stats == a[i].stats
            &&& b[i].visit_count == a[i].visit_count - occurrences(path, i)
        }
}

proof fn lemma_occurrences_push(path: Seq<NodeId>, x: NodeId, i: int)
    ensures
        occurrences(path.push(x), i) == occurrences(path, i) + if x.0 == i {
            1nat
        } else {
            0nat
        },
{
    assert(path.push(x).drop_last() =~= path);
}

/// Backs a value up from `leaf_id` to the root: every node on the path gets one more
/// visit, and `add_value` turns its statistics into the new ones (in the application it
/// adds the leaf's value, from White's perspective, to the node's running total).
pub fn backpropagate<S, F: Fn(&S) -> S>(tree: &mut SearchTree<S>, leaf_id: NodeId, add_value: &F)
    requires
        old(tree).wf(),
        leaf_id.0 < old(tree).spec_nodes().len(),
        forall|k: int|
            0 <= k < ancestry(old(tree).spec_nodes(), leaf_id.0 as int).len() ==> old(
                tree,
            ).spec_nodes()[#[trigger] ancestry(old(tree).spec_nodes(), leaf_id.0 as int)[k]].visit_count
                < u64::MAX,
        forall|s: &S| #[trigger] add_value.requires((s,)),
    ensures
        final(tree).wf(),
        final(tree).spec_root() == old(tree).spec_root(),
        final(tree).spec_nodes().len() == old(tree).spec_nodes().len(),
        forall|i: int|
            0 <= i < old(tree).spec_nodes().len() ==> backed_up(
                #[trigger] old(tree).spec_nodes()[i],
                final(tree).spec_nodes()[i],
                ancestry(old(tree).spec_nodes(), leaf_id.0 as int).contains(i),
                *add_value,
            ),
{
    let ghost old_nodes = tree.nodes@;
    let ghost root = tree.root_id;
    let ghost anc = ancestry(old_nodes, leaf_id.0 as int);
    proof {
        lemma_ancestry(old_nodes, root, leaf_id.0 as int);
    }
    let mut current: Option<NodeId> = Some(leaf_id);
    let ghost mut k: int = 0;
    while current.is_some()
        invariant
            anc == ancestry(old_nodes, leaf_id.0 as int),
            nodes_wf(old_nodes, root),
            anc.len() >= 1,
            anc[0] == leaf_id.0,
            anc.last() == root.0,
            leaf_id.0 < old_nodes.len(),
            forall|j: int| 0 <= j < anc.len() ==> 0 <= #[trigger] anc[j] <= leaf_id.0,
            forall|j: int|
                0 <= j < anc.len() - 1 ==> {
                    &&& old_nodes[#[trigger] anc[j]].parent is Some
                    &&& anc[j + 1] == old_nodes[anc[j]].parent.unwrap().0
                },
            forall|j1: int, j2: int| 0 <= j1 < j2 < anc.len() ==> #[trigger] anc[j1] > #[trigger] anc[j2],
            forall|j: int| 0 <= j < anc.len() ==> old_nodes[#[trigger] anc[j]].visit_count < u64::MAX,
            forall|s: &S| #[trigger] add_value.requires((s,)),
            0 <= k <= anc.len(),
            current == (if k < anc.len() {
                Some(NodeId(anc[k] as u32))
            } else {
                None::<NodeId>
            }),
            tree.nodes@.len() == old_nodes.len(),
            tree.root_id == root,
            tree.next_id == old_nodes.len(),
            forall|i: int|
                0 <= i < old_nodes.len() ==> backed_up(
                    #[trigger] old_nodes[i],
                    tree.nodes@[i],
                    anc.take(k).contains(i),
                    *add_value,
                ),
        decreases anc.len() - k,
    {
        let id = current.unwrap();
        let i = id.index();
        let ghost before = tree.nodes@;
        assert(!anc.take(k).contains(i as int)) by {
            if anc.take(k).contains(i as int) {
                let j = choose|j: int| 0 <= j < k && anc.take(k)[j] == i;
                assert(anc[j] > anc[k]);
            }
        }
        assert(before[i as int] == old_nodes[i as int]);
        let nv = tree.nodes[i].visit_count + 1;
        let ns = add_value(&tree.nodes[i].stats);
        tree.nodes[i].visit_count = nv;
        tree.nodes[i].stats = ns;
        current = tree.nodes[i].parent;
        proof {
            assert forall|j: int| 0 <= j < old_nodes.len() && j != i implies #[trigger] tree.nodes@[j]
                == before[j] by {}
            let next = anc.take(k + 1);
            let prev = anc.take(k);
            assert forall|x: int| next.contains(x) <==> (prev.contains(x) || x == i) by {
                if next.contains(x) {
                    let j = choose|j: int| 0 <= j < next.len() && next[j] == x;
                    if j < k {
                        assert(prev[j] == x);
                    }
                }
                if prev.contains(x) {
                    let j = choose|j: int| 0 <= j < prev.len() && prev[j] == x;
                    assert(next[j] == x);
                }
                if x == i {
                    assert(next[k] == x);
                }
            }
            if k + 1 < anc.len() {
                assert(anc[k + 1] == old_nodes[anc[k]].parent.unwrap().0);
            } else {
                assert(anc[k] == root.0);
                lemma_node_links(old_nodes, root, root.0 as int);
            }
            k = k + 1;
        }
    }
    proof {
        assert(anc.take(k) =~= anc);
        assert(shapes(tree.nodes@) =~= shapes(old_nodes)) by {
            assert forall|i: int| 0 <= i < old_nodes.len() implies #[trigger] shapes(tree.nodes@)[i]
                == shapes(old_nodes)[i] by {
                assert(backed_up(old_nodes[i], tree.nodes@[i], anc.take(k).contains(i), *add_value));
            }
        }
    }
}

/// Adds one visit to every node of `path`, so that the nodes of a selection still waiting
/// for their evaluation look less attractive to the next selections of the same batch.
pub fn apply_virtual_loss<S>(tree: &mut SearchTree<S>, path: &[NodeId])
    requires
        old(tree).wf(),
        forall|k: int| 0 <= k < path@.len() ==> (#[trigger] path@[k]).0 < old(tree).spec_nodes().len(),
        forall|i: int|
            0 <= i < old(tree).spec_nodes().len() ==> (#[trigger] old(tree).spec_nodes()[i]).visit_count
                + occurrences(path@, i) <= u64::MAX,
    ensures
        final(tree).wf(),
        final(tree).spec_root() == old(tree).spec_root(),
        virtual_loss_applied(old(tree).spec_nodes(), final(tree).spec_nodes(), path@),
{
    let ghost old_nodes = tree.nodes@;
    let mut j: usize = 0;
    while j < path.len()
        invariant
            0 <= j <= path@.len(),
            forall|k: int| 0 <= k < path@.len() ==> (#[trigger] path@[k]).0 < old_nodes.len(),
            forall|i: int|
                0 <= i < old_nodes.len() ==> (#[trigger] old_nodes[i]).visit_count + occurrences(
                    path@,
                    i,
                ) <= u64::MAX,
            tree.root_id == old(tree).root_id,
            tree.next_id == old(tree).next_id,
            virtual_loss_applied(old_nodes, tree.nodes@, path@.take(j as int)),
        decreases path@.len() - j,
    {
        let i = path[j].index();
        proof {
            lemma_occurrences_prefix(path@, j as int + 1, i as int);
            lemma_occurrences_push(path@.take(j as int), path@[j as int], i as int);
            assert(path@.take(j as int).push(path@[j as int]) =~= path@.take(j as int + 1));
            assert(same_except_counts(old_nodes[i as int], tree.nodes@[i as int]));
        }
        let nv = tree.nodes[i].visit_count + 1;
        tree.nodes[i].visit_count = nv;
        proof {
            assert forall|x: int| 0 <= x < old_nodes.len() implies {
                &&& same_except_counts(#[trigger] old_nodes[x], tree.nodes@[x])
                &&& tree.nodes@[x].stats == old_nodes[x].stats
                &&& tree.nodes@[x].visit_count == old_nodes[x].visit_count + occurrences(
                    path@.take(j as int + 1),
                    x,
                )
            } by {
                lemma_occurrences_push(path@.take(j as int), path@[j as int], x);
            }
        }
        j += 1;
    }
    proof {
        assert(path@.take(path@.len() as int) =~= path@);
        assert(shapes(tree.nodes@) =~= shapes(old_nodes));
    }
}

/// Takes back the visits that `apply_virtual_loss` added along `path`.
pub fn revert_virtual_loss<S>(tree: &mut SearchTree<S>, path: &[NodeId])
    requires
        old(tree).wf(),
        forall|k: int| 0 <= k < path@.len() ==> (#[trigger] path@[k]).0 < old(tree).spec_nodes().len(),
        forall|i: int|
            0 <= i < old(tree).spec_nodes().len() ==> (#[trigger] old(tree).spec_nodes()[i]).visit_count
                >= occurrences(path@, i),
    ensures
        final(tree).wf(),
        final(tree).spec_root() == old(tree).spec_root(),
        virtual_loss_reverted(old(tree).spec_nodes(), final(tree).spec_nodes(), path@),
{
    let ghost old_nodes = tree.nodes@;
    let mut j: usize = 0;
    while j < path.len()
        invariant
            0 <= j <= path@.len(),
            forall|k: int| 0 <= k < path@.len() ==> (#[trigger] path@[k]).0 < old_nodes.len(),
            forall|i: int|
                0 <= i < old_nodes.len() ==> (#[trigger] old_nodes[i]).visit_count >= occurrences(
                    path@,
                    i,
                ),
            tree.root_id == old(tree).root_id,
            tree.next_id == old(tree).next_id,
            virtual_loss_reverted(old_nodes, tree.nodes@, path@.take(j as int)),
        decreases path@.len() - j,
    {
        let i = path[j].index();
        proof {
            lemma_occurrences_prefix(path@, j as int + 1, i as int);
            lemma_occurrences_push(path@.take(j as int), path@[j as int], i as int);
            assert(path@.take(j as int).push(path@[j as int]) =~= path@.take(j as int + 1));
            assert(same_except_counts(old_nodes[i as int], tree.nodes@[i as int]));
        }
        let nv = tree.nodes[i].visit_count - 1;
        tree.nodes[i].visit_count = nv;
        proof {
            assert forall|x: int| 0 <= x < old_nodes.len() implies {
                &&& same_except_counts(#[trigger] old_nodes[x], tree.nodes@[x])
                &&& tree.nodes@[x].stats == old_nodes[x].stats
                &&& tree.nodes@[x].visit_count == old_nodes[x].visit_count - occurrences(
                    path@.take(j as int + 1),
                    x,
                )
            } by {
                lemma_occurrences_push(path@.take(j as int), path@[j as int], x);
            }
        }
        j += 1;
    }
    proof {
        assert(path@.take(path@.len() as int) =~= path@);
        assert(shapes(tree.nodes@) =~= shapes(old_nodes));
    }
}

/// A prefix of a path holds a node at most as often as the whole path.
proof fn lemma_occurrences_prefix(path: Seq<NodeId>, n: int, i: int)
    requires
        0 <= n <= path.len(),
    ensures
        occurrences(path.take(n), i) <= occurrences(path, i),
    decreases path.len() - n,
{
    if n < path.len() {
        lemma_occurrences_prefix(path, n + 1, i);
        lemma_occurrences_push(path.take(n), path[n], i);
        assert(path.take(n).push(path[n]) =~= path.take(n + 1));
    } else {
        assert(path.take(n) =~= path);
    }
}

/// Reverting a virtual loss along a path undoes applying it along the same path: every
/// node is exactly as it was before.
pub proof fn lemma_revert_undoes_apply<S>(
    a: Seq<Node<S>>,
    b: Seq<Node<S>>,
    c: Seq<Node<S>>,
    path: Seq<NodeId>,
)
    requires
        virtual_loss_applied(a, b, path),
        virtual_loss_reverted(b, c, path),
    ensures
        c == a,
{
    assert forall|i: int| 0 <= i < a.len() implies #[trigger] c[i] == a[i] by {
        assert(same_except_counts(a[i], b[i]));
        assert(same_except_counts(b[i], c[i]));
    }
    assert(c =~= a);
}

/// The visits of the nodes `cs`, added up.
pub open spec fn child_visits<S>(n: Seq<Node<S>>, cs: Seq<NodeId>) -> int
    decreases cs.len(),
{
    if cs.len() == 0 {
        0
    } else {
        child_visits(n, cs.drop_last()) + n[cs.last().0 as int].visit_count
    }
}

proof fn lemma_child_visits_same<S>(a: Seq<Node<S>>, b: Seq<Node<S>>, cs: Seq<NodeId>)
    requires
        forall|k: int| 0 <= k < cs.len() ==> b[(#[trigger] cs[k]).0 as int].visit_count == a[cs[k].0 as int].visit_count,
    ensures
        child_visits(b, cs) == child_visits(a, cs),
    decreases cs.len(),
{
    if cs.len() > 0 {
        lemma_child_visits_same(a, b, cs.drop_last());
        assert(cs.last() == cs[cs.len() - 1]);
    }
}

proof fn lemma_child_visits_one_more<S>(a: Seq<Node<S>>, b: Seq<Node<S>>, cs: Seq<NodeId>, p: int)
    requires
        0 <= p < cs.len(),
        b[cs[p].0 as int].visit_count == a[cs[p].0 as int].visit_count + 1,
        forall|k: int|
            0 <= k < cs.len() && k != p ==> b[(#[trigger] cs[k]).0 as int].visit_count == a[cs[k].0 as int].visit_count,
    ensures
        child_visits(b, cs) == child_visits(a, cs) + 1,
    decreases cs.len(),
{
    let init = cs.drop_last();
    assert(cs.last() == cs[cs.len() - 1]);
    if p == cs.len() - 1 {
        assert forall|k: int| 0 <= k < init.len() implies b[(#[trigger] init[k]).0 as int].visit_count
            == a[init[k].0 as int].visit_count by {
            assert(init[k] == cs[k]);
        }
        lemma_child_visits_same(a, b, init);
    } else {
        assert forall|k: int| 0 <= k < init.len() && k != p implies b[(#[trigger] init[k]).0 as int].visit_count
            == a[init[k].0 as int].visit_count by {
            assert(init[k] == cs[k]);
        }
        assert(init[p] == cs[p]);
        lemma_child_visits_one_more(a, b, init, p);
    }
}

/// Backing up a value keeps, at every node but the leaf, the difference between the
/// node's visits and the sum of its children's visits: a node on the path gains one visit
/// and so does exactly one of its children. At the leaf the difference grows by one. So a
/// tree whose visits all came from backing up values has, at every node, as many visits
/// as its children together plus the values backed up from that node itself.
pub proof fn lemma_backprop_visit_balance<S, F: Fn(&S) -> S>(
    a: Seq<Node<S>>,
    b: Seq<Node<S>>,
    root: NodeId,
    leaf: int,
    add_value: F,
    i: int,
)
    requires
        nodes_wf(a, root),
        0 <= leaf < a.len(),
        b.len() == a.len(),
        forall|j: int|
            0 <= j < a.len() ==> backed_up(#[trigger] a[j], b[j], ancestry(a, leaf).contains(j), add_value),
        0 <= i < a.len(),
    ensures
        i != leaf ==> b[i].visit_count - child_visits(b, b[i].children@) == a[i].visit_count
            - child_visits(a, a[i].children@),
        i == leaf ==> b[i].visit_count - child_visits(b, b[i].children@) == a[i].visit_count
            - child_visits(a, a[i].children@) + 1,
{
    let anc = ancestry(a, leaf);
    lemma_ancestry(a, root, leaf);
    lemma_node_links(a, root, i);
    let cs = a[i].children@;
    assert(backed_up(a[i], b[i], anc.contains(i), add_value));
    assert(b[i].children@ == cs);
    // A child of `i` is on the path only when `i` is, right above it.
    assert forall|k: int| 0 <= k < cs.len() && anc.contains((#[trigger] cs[k]).0 as int) implies
        anc.contains(i) && (exists|m: int| 0 <= m < anc.len() - 1 && #[trigger] anc[m] == cs[k].0 && anc[m + 1] == i) by {
        let c = cs[k].0 as int;
        let m = choose|m: int| 0 <= m < anc.len() && anc[m] == c;
        assert(a[c].parent == Some(NodeId(i as u32)));
        if m == anc.len() - 1 {
            lemma_node_links(a, root, c);
            assert(anc.last() == root.0);
        }
        assert(anc[m + 1] == a[anc[m]].parent.unwrap().0);
        assert(anc[m + 1] == i);
    }
    if i == leaf {
        assert(anc[0] == i);
        assert forall|k: int| 0 <= k < cs.len() implies b[(#[trigger] cs[k]).0 as int].visit_count
            == a[cs[k].0 as int].visit_count by {
            let ck = cs[k].0 as int;
            if anc.contains(ck) {
                let m2 = choose|m2: int| 0 <= m2 < anc.len() - 1 && #[trigger] anc[m2] == ck && anc[m2 + 1] == i;
                assert(anc[0] > anc[m2 + 1]);
            }
            assert(backed_up(a[ck], b[ck], anc.contains(ck), add_value));
        }
        lemma_child_visits_same(a, b, cs);
        assert(backed_up(a[i], b[i], true, add_value));
    } else if anc.contains(i) {
        let m = choose|m: int| 0 <= m < anc.len() && anc[m] == i;
        assert(m != 0);
        let c = anc[m - 1];
        assert(anc[m] == a[anc[m - 1]].parent.unwrap().0);
        lemma_node_links(a, root, c);
        assert(a[c].parent == Some(NodeId(i as u32)));
        assert(a[i].children@.contains(NodeId(c as u32)));
        let p = choose|p: int| 0 <= p < cs.len() && cs[p] == NodeId(c as u32);
        assert(anc.contains(c));
        assert(backed_up(a[c], b[c], true, add_value));
        assert forall|k: int| 0 <= k < cs.len() && k != p implies b[(#[trigger] cs[k]).0 as int].visit_count
            == a[cs[k].0 as int].visit_count by {
            let ck = cs[k].0 as int;
            if anc.contains(ck) {
                let m2 = choose|m2: int| 0 <= m2 < anc.len() - 1 && #[trigger] anc[m2] == ck && anc[m2 + 1] == i;
                if m2 + 1 < m {
                    assert(anc[m2 + 1] > anc[m]);
                } else if m2 + 1 > m {
                    assert(anc[m] > anc[m2 + 1]);
                }
                assert(cs[k] == cs[p]);
            }
            assert(backed_up(a[ck], b[ck], anc.contains(ck), add_value));
        }
        lemma_child_visits_one_more(a, b, cs, p);
    } else {
        assert forall|k: int| 0 <= k < cs.len() implies b[(#[trigger] cs[k]).0 as int].visit_count
            == a[cs[k].0 as int].visit_count by {
            let ck = cs[k].0 as int;
            assert(backed_up(a[ck], b[ck], anc.contains(ck), add_value));
        }
        lemma_child_visits_same(a, b, cs);
    }
}

} // verus!
