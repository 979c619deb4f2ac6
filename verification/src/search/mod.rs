use vstd::prelude::*;

use crate::text::{count_tokens, tokens};

pub mod backprop;
pub mod candidates;
pub mod selection;

pub use backprop::{apply_virtual_loss, backpropagate, revert_virtual_loss};
pub use selection::{select, select_with_path};
pub use candidates::merge_candidates;

verus! {

/// Unique identifier of a node in the search tree; it indexes the arena directly.
#[derive(Debug, Clone, Copy, PartialEq, Eq, Hash, Structural)]
pub struct NodeId(pub u32);

impl NodeId {
    pub fn index(self) -> (r: usize)
        ensures
            r == self.0,
    {
        self.0 as usize
    }
}

/// Node type in the search tree.
#[derive(Debug, Clone, Copy, PartialEq, Eq, Structural)]
pub enum NodeType {
    /// Our turn: select via PUCT.
    Max,
    /// Opponent's turn: sample proportionally to the human-move distribution.
    Chance,
}

/// The node type of the children of a node of type `t`: the two kinds alternate.
pub open spec fn child_type(t: NodeType) -> NodeType {
    match t {
        NodeType::Max => NodeType::Chance,
        NodeType::Chance => NodeType::Max,
    }
}

impl NodeType {
    /// The type of this node's children: CHANCE below MAX and MAX below CHANCE.
    pub fn child(self) -> (r: NodeType)
        ensures
            r == child_type(self),
    {
        match self {
            NodeType::Max => NodeType::Chance,
            NodeType::Chance => NodeType::Max,
        }
    }
}

/// A single node of the search tree. `stats` holds the per-node evaluation data that
/// the application keeps alongside the tree (values, priors, policies).
#[derive(Debug, Clone)]
pub struct Node<S> {
    pub id: NodeId,
    pub parent: Option<NodeId>,
    pub move_uci: Option<String>,
    pub node_type: NodeType,
    pub epd: String,
    pub move_sequence: String,
    pub visit_count: u64,
    pub children: Vec<NodeId>,
    pub expanded: bool,
    /// Win/draw/loss permille from the engine evaluation, once there is one.
    pub wdl: Option<(u32, u32, u32)>,
    pub stats: S,
}

impl<S> Node<S> {
    pub fn new(
        id: NodeId,
        parent: Option<NodeId>,
        move_uci: Option<String>,
        node_type: NodeType,
        epd: String,
        move_sequence: String,
        stats: S,
    ) -> (n: Self)
        ensures
            n.id == id,
            n.parent == parent,
            n.move_uci == move_uci,
            n.node_type == node_type,
            n.epd == epd,
            n.move_sequence == move_sequence,
            n.visit_count == 0,
            n.children@.len() == 0,
            !n.expanded,
            n.wdl is None,
            n.stats == stats,
    {
        Node {
            id,
            parent,
            move_uci,
            node_type,
            epd,
            move_sequence,
            visit_count: 0,
            children: Vec::new(),
            expanded: false,
            wdl: None,
            stats,
        }
    }
}

/// What the tree's shape consists of, per node: its id, its parent and its children.
pub type Link = (NodeId, Option<NodeId>, Seq<NodeId>);

/// The shape of an arena of nodes, node by node.
pub open spec fn shapes<S>(n: Seq<Node<S>>) -> Seq<Link> {
    Seq::new(n.len(), |i: int| (n[i].id, n[i].parent, n[i].children@))
}

/// The shape every tree keeps: node `i` sits at index `i`, parents come before their
/// children, parent and child links agree both ways, the root is the one node without a
/// parent, and no child is listed twice.
#[verifier::opaque]
pub open spec fn shape_wf(sh: Seq<Link>, root: NodeId) -> bool {
    &&& 1 <= sh.len() <= u32::MAX
    &&& root.0 < sh.len()
    &&& forall|i: int| 0 <= i < sh.len() ==> (#[trigger] sh[i]).0 == NodeId(i as u32)
    &&& forall|i: int| 0 <= i < sh.len() ==> ((#[trigger] sh[i]).1 is None <==> i == root.0)
    &&& forall|i: int|
        0 <= i < sh.len() && (#[trigger] sh[i]).1 is Some ==> {
            let p = sh[i].1.unwrap().0 as int;
            &&& p < i
            &&& sh[p].2.contains(NodeId(i as u32))
        }
    &&& forall|i: int, k: int|
        #![trigger sh[i].2[k]]
        0 <= i < sh.len() && 0 <= k < sh[i].2.len() ==> {
            let c = sh[i].2[k].0 as int;
            &&& i < c < sh.len()
            &&& sh[c].1 == Some(NodeId(i as u32))
        }
    &&& forall|i: int| 0 <= i < sh.len() ==> (#[trigger] sh[i]).2.no_duplicates()
}

/// The arena `n` forms a well-formed tree rooted at `root`.
pub open spec fn nodes_wf<S>(n: Seq<Node<S>>, root: NodeId) -> bool {
    shape_wf(shapes(n), root)
}

/// The nodes from `i` up to the root, following parent links: `i` first, the root last.
pub open spec fn ancestry<S>(n: Seq<Node<S>>, i: int) -> Seq<int>
    decreases i,
{
    if 0 <= i < n.len() {
        match n[i].parent {
            Some(p) => if 0 <= p.0 < i {
                seq![i].add(ancestry(n, p.0 as int))
            } else {
                seq![i]
            },
            None => seq![i],
        }
    } else {
        seq![]
    }
}

/// `a` and `b` agree on every field but the child list.
pub open spec fn same_except_children<S>(a: Node<S>, b: Node<S>) -> bool {
    &&& a.id == b.id
    &&& a.parent == b.parent
    &&& a.move_uci == b.move_uci
    &&& a.node_type == b.node_type
    &&& a.epd == b.epd
    &&& a.move_sequence == b.move_sequence
    &&& a.visit_count == b.visit_count
    &&& a.expanded == b.expanded
    &&& a.wdl == b.wdl
    &&& a.stats == b.stats
}

/// `a` and `b` agree on every field but the expanded flag.
pub open spec fn same_except_expanded<S>(a: Node<S>, b: Node<S>) -> bool {
    &&& a.id == b.id
    &&& a.parent == b.parent
    &&& a.move_uci == b.move_uci
    &&& a.node_type == b.node_type
    &&& a.epd == b.epd
    &&& a.move_sequence == b.move_sequence
    &&& a.visit_count == b.visit_count
    &&& a.children == b.children
    &&& a.wdl == b.wdl
    &&& a.stats == b.stats
}

/// `n` is a node just made by `Node::new` from these values: unvisited, unexpanded,
/// without children or evaluation.
pub open spec fn is_fresh_node<S>(
    n: Node<S>,
    id: NodeId,
    parent: Option<NodeId>,
    move_uci: Option<String>,
    node_type: NodeType,
    epd: String,
    move_sequence: String,
    stats: S,
) -> bool {
    &&& n.id == id
    &&& n.parent == parent
    &&& n.move_uci == move_uci
    &&& n.node_type == node_type
    &&& n.epd == epd
    &&& n.move_sequence == move_sequence
    &&& n.visit_count == 0
    &&& n.children@.len() == 0
    &&& !n.expanded
    &&& n.wdl is None
    &&& n.stats == stats
}

/// The full search tree, stored as a flat arena indexed by `NodeId`.
pub struct SearchTree<S> {
    nodes: Vec<Node<S>>,
    root_id: NodeId,
    next_id: u32,
}

impl<S> SearchTree<S> {
    pub closed spec fn spec_nodes(&self) -> Seq<Node<S>> {
        self.nodes@
    }

    pub closed spec fn spec_root(&self) -> NodeId {
        self.root_id
    }

    pub closed spec fn spec_next_id(&self) -> u32 {
        self.next_id
    }

    /// The tree is well formed and the next fresh id is the arena's length.
    pub open spec fn wf(&self) -> bool {
        &&& nodes_wf(self.spec_nodes(), self.spec_root())
        &&& self.spec_next_id() == self.spec_nodes().len()
    }

    /// A tree holding only its root.
    pub fn new(root_epd: String, root_move_sequence: String, root_type: NodeType, root_stats: S) -> (t:
        Self)
        ensures
            t.wf(),
            t.spec_nodes().len() == 1,
            t.spec_root() == NodeId(0),
            t.spec_nodes()[0].parent is None,
            t.spec_nodes()[0].move_uci is None,
            t.spec_nodes()[0].node_type == root_type,
            t.spec_nodes()[0].epd == root_epd,
            t.spec_nodes()[0].move_sequence == root_move_sequence,
            t.spec_nodes()[0].visit_count == 0,
            t.spec_nodes()[0].children@.len() == 0,
            !t.spec_nodes()[0].expanded,
            t.spec_nodes()[0].wdl is None,
            t.spec_nodes()[0].stats == root_stats,
    {
        let root = Node::new(
            NodeId(0),
            None,
            None,
            root_type,
            root_epd,
            root_move_sequence,
            root_stats,
        );
        let mut nodes: Vec<Node<S>> = Vec::new();
        nodes.push(root);
        let t = SearchTree { nodes, root_id: NodeId(0), next_id: 1 };
        proof {
            reveal(shape_wf);
            assert(shapes(t.spec_nodes())[0] == (NodeId(0), None::<NodeId>, Seq::<NodeId>::empty()));
        }
        t
    }

    /// Rebuilds a tree from an arena of nodes (as loaded from storage), ordered by id.
    pub fn from_nodes(nodes: Vec<Node<S>>, root_id: NodeId, next_id: u32) -> (t: Self)
        requires
            nodes_wf(nodes@, root_id),
            next_id == nodes@.len(),
        ensures
            t.wf(),
            t.spec_nodes() == nodes@,
            t.spec_root() == root_id,
    {
        SearchTree { nodes, root_id, next_id }
    }

    pub fn root_id(&self) -> (r: NodeId)
        ensures
            r == self.spec_root(),
    {
        self.root_id
    }

    pub fn nodes(&self) -> (r: &Vec<Node<S>>)
        ensures
            r@ == self.spec_nodes(),
    {
        &self.nodes
    }

    pub fn root(&self) -> (r: &Node<S>)
        requires
            self.wf(),
        ensures
            *r == self.spec_nodes()[self.spec_root().0 as int],
    {
        proof {
            reveal(shape_wf);
        }
        &self.nodes[self.root_id.0 as usize]
    }

    pub fn get(&self, id: NodeId) -> (r: Option<&Node<S>>)
        ensures
            match r {
                Some(n) => id.0 < self.spec_nodes().len() && *n == self.spec_nodes()[id.0 as int],
                None => id.0 >= self.spec_nodes().len(),
            },
    {
        let i = id.index();
        if i < self.nodes.len() {
            Some(&self.nodes[i])
        } else {
            None
        }
    }

    pub fn node_count(&self) -> (r: usize)
        ensures
            r == self.spec_nodes().len(),
    {
        self.nodes.len()
    }

    /// Mutable access to a node. The tree stays well formed as long as the node keeps
    /// its id, parent and children (see `lemma_update_keeps_shape`).
    pub fn get_mut(&mut self, id: NodeId) -> (r: Option<&mut Node<S>>)
        ensures
            match r {
                Some(n) => {
                    &&& id.0 < old(self).spec_nodes().len()
                    &&& *n == old(self).spec_nodes()[id.0 as int]
                    &&& final(self).spec_nodes() == old(self).spec_nodes().update(
                        id.0 as int,
                        *final(n),
                    )
                    &&& final(self).spec_root() == old(self).spec_root()
                    &&& final(self).spec_next_id() == old(self).spec_next_id()
                },
                None => {
                    &&& id.0 >= old(self).spec_nodes().len()
                    &&& final(self).spec_nodes() == old(self).spec_nodes()
                    &&& final(self).spec_root() == old(self).spec_root()
                    &&& final(self).spec_next_id() == old(self).spec_next_id()
                },
            },
    {
        let i = id.index();
        if i < self.nodes.len() {
            Some(&mut self.nodes[i])
        } else {
            None
        }
    }

    /// Mutable access to the root node, on the same terms as `get_mut`.
    pub fn root_mut(&mut self) -> (r: &mut Node<S>)
        requires
            old(self).wf(),
        ensures
            *r == old(self).spec_nodes()[old(self).spec_root().0 as int],
            final(self).spec_nodes() == old(self).spec_nodes().update(
                old(self).spec_root().0 as int,
                *final(r),
            ),
            final(self).spec_root() == old(self).spec_root(),
            final(self).spec_next_id() == old(self).spec_next_id(),
    {
        proof {
            reveal(shape_wf);
        }
        let i = self.root_id.index();
        &mut self.nodes[i]
    }

    /// Marks node `id` as expanded; nothing else changes.
    pub fn mark_expanded(&mut self, id: NodeId)
        requires
            old(self).wf(),
            id.0 < old(self).spec_nodes().len(),
        ensures
            final(self).wf(),
            final(self).spec_root() == old(self).spec_root(),
            final(self).spec_nodes().len() == old(self).spec_nodes().len(),
            final(self).spec_nodes()[id.0 as int].expanded,
            forall|i: int|
                0 <= i < old(self).spec_nodes().len() && i != id.0
                    ==> #[trigger] final(self).spec_nodes()[i] == old(self).spec_nodes()[i],
            final(self).spec_nodes()[id.0 as int].children == old(self).spec_nodes()[id.0 as int].children,
            same_except_expanded(final(self).spec_nodes()[id.0 as int], old(self).spec_nodes()[id.0 as int]),
    {
        let ghost old_nodes = self.nodes@;
        let i = id.index();
        self.nodes[i].expanded = true;
        proof {
            lemma_update_keeps_shape(old_nodes, i as int, self.nodes@[i as int]);
            assert(self.nodes@ =~= old_nodes.update(i as int, self.nodes@[i as int]));
        }
    }

    /// Adds a child below `parent_id` and returns its id: the next fresh id, at the end
    /// of the arena, listed last among the parent's children.
    pub fn add_child(
        &mut self,
        parent_id: NodeId,
        move_uci: String,
        node_type: NodeType,
        epd: String,
        move_sequence: String,
        stats: S,
    ) -> (id: NodeId)
        requires
            old(self).wf(),
            parent_id.0 < old(self).spec_nodes().len(),
            old(self).spec_nodes().len() < u32::MAX,
        ensures
            final(self).wf(),
            id.0 == old(self).spec_nodes().len(),
            final(self).spec_root() == old(self).spec_root(),
            final(self).spec_nodes().len() == old(self).spec_nodes().len() + 1,
            forall|i: int|
                0 <= i < old(self).spec_nodes().len() && i != parent_id.0
                    ==> #[trigger] final(self).spec_nodes()[i] == old(self).spec_nodes()[i],
            same_except_children(
                final(self).spec_nodes()[parent_id.0 as int],
                old(self).spec_nodes()[parent_id.0 as int],
            ),
            final(self).spec_nodes()[parent_id.0 as int].children@ == old(
                self,
            ).spec_nodes()[parent_id.0 as int].children@.push(id),
            is_fresh_node(
                final(self).spec_nodes()[id.0 as int],
                id,
                Some(parent_id),
                Some(move_uci),
                node_type,
                epd,
                move_sequence,
                stats,
            ),
    {
        let ghost old_nodes = self.nodes@;
        let id = NodeId(self.next_id);
        self.next_id = self.next_id + 1;
        let node = Node::new(id, Some(parent_id), Some(move_uci), node_type, epd, move_sequence, stats);
        let ghost fresh = node;
        self.nodes.push(node);
        let ghost pushed = self.nodes@;
        let p = parent_id.index();
        self.nodes[p].children.push(id);
        proof {
            assert(pushed == old_nodes.push(fresh));
            assert(self.nodes@.len() == pushed.len());
            assert forall|i: int| 0 <= i < pushed.len() && i != p implies #[trigger] self.nodes@[i]
                == pushed[i] by {}
            assert(self.nodes@[p as int].children@ == pushed[p as int].children@.push(id));
            assert(self.nodes@[p as int].id == pushed[p as int].id);
            assert(self.nodes@[p as int].parent == pushed[p as int].parent);
            assert(fresh.children@ =~= Seq::<NodeId>::empty());
            let sh = shapes(old_nodes);
            let parent = sh[p as int];
            assert(shapes(self.nodes@) =~= sh.update(p as int, (parent.0, parent.1, parent.2.push(id))).push(
                (id, Some(parent_id), Seq::empty()),
            ));
            lemma_shape_add_child(sh, self.root_id, p as int);
            assert forall|i: int| 0 <= i < old_nodes.len() && i != p implies #[trigger] self.nodes@[i]
                == old_nodes[i] by {}
        }
        id
    }
}

/// A well-formed tree has between one and `u32::MAX` nodes, and its root is one of them.
pub proof fn lemma_tree_bounds<S>(n: Seq<Node<S>>, root: NodeId)
    requires
        nodes_wf(n, root),
    ensures
        1 <= n.len() <= u32::MAX,
        root.0 < n.len(),
{
    reveal(shape_wf);
}

/// Whether White is to move at `node`, judged by the parity of the number of moves played
/// since the start position.
pub fn is_white_to_move_from_node<S>(node: &Node<S>) -> (r: bool)
    ensures
        r == (tokens(node.move_sequence@).len() % 2 == 0),
{
    count_tokens(node.move_sequence.as_str()) % 2 == 0
}

fn contains_id(ids: &Vec<NodeId>, x: NodeId) -> (r: bool)
    ensures
        r == ids@.contains(x),
{
    let mut k: usize = 0;
    while k < ids.len()
        invariant
            k <= ids@.len(),
            forall|j: int| 0 <= j < k ==> ids@[j] != x,
        decreases ids@.len() - k,
    {
        if ids[k] == x {
            assert(ids@[k as int] == x);
            return true;
        }
        k += 1;
    }
    false
}

/// Conditions on each node `j < upto` of a shape: its id is its index, it is the root
/// exactly when it has no parent, and its parent comes before it and lists it as a child.
pub open spec fn links_ok(sh: Seq<Link>, root: NodeId, upto: int) -> bool {
    &&& forall|j: int| 0 <= j < upto ==> (#[trigger] sh[j]).0 == NodeId(j as u32)
    &&& forall|j: int| 0 <= j < upto ==> ((#[trigger] sh[j]).1 is None <==> j == root.0)
    &&& forall|j: int|
        0 <= j < upto && (#[trigger] sh[j]).1 is Some ==> {
            let p = sh[j].1.unwrap().0 as int;
            &&& p < j
            &&& sh[p].2.contains(NodeId(j as u32))
        }
}

/// Conditions on the child lists of the nodes `j < upto` of a shape: every child comes
/// after its parent, names it as its parent, and is listed once.
pub open spec fn children_ok(sh: Seq<Link>, upto: int) -> bool {
    &&& forall|j: int, k: int|
        #![trigger sh[j].2[k]]
        0 <= j < upto && 0 <= k < sh[j].2.len() ==> {
            let c = sh[j].2[k].0 as int;
            &&& j < c < sh.len()
            &&& sh[c].1 == Some(NodeId(j as u32))
        }
    &&& forall|j: int| 0 <= j < upto ==> (#[trigger] sh[j]).2.no_duplicates()
}

proof fn lemma_shape_wf_parts(sh: Seq<Link>, root: NodeId)
    ensures
        shape_wf(sh, root) <==> (1 <= sh.len() <= u32::MAX && root.0 < sh.len() && links_ok(
            sh,
            root,
            sh.len() as int,
        ) && children_ok(sh, sh.len() as int)),
{
    reveal(shape_wf);
}

/// Checks that an arena of nodes forms a well-formed tree rooted at `root` (see
/// `shape_wf`): the test to make before `SearchTree::from_nodes` on nodes read from
/// storage.
pub fn nodes_well_formed<S>(nodes: &Vec<Node<S>>, root: NodeId) -> (r: bool)
    ensures
        r == nodes_wf(nodes@, root),
{
    let ghost sh = shapes(nodes@);
    proof {
        lemma_shape_wf_parts(sh, root);
    }
    let n = nodes.len();
    if n == 0 || n as u64 > 4294967295u64 || root.index() >= n {
        return false;
    }
    if !links_checked(nodes, root) {
        return false;
    }
    children_checked(nodes)
}

#[verifier::spinoff_prover]
#[verifier::rlimit(40)]
fn links_checked<S>(nodes: &Vec<Node<S>>, root: NodeId) -> (r: bool)
    requires
        nodes@.len() <= u32::MAX,
    ensures
        r == links_ok(shapes(nodes@), root, nodes@.len() as int),
{
    let ghost sh = shapes(nodes@);
    let n = nodes.len();
    let mut i: usize = 0;
    while i < n
        invariant
            n == nodes@.len(),
            sh == shapes(nodes@),
            n <= u32::MAX,
            i <= n,
            links_ok(sh, root, i as int),
        decreases n - i,
    {
        let node = &nodes[i];
        assert(sh[i as int] == (node.id, node.parent, node.children@));
        if node.id.index() != i {
            assert(sh[i as int].0 != NodeId(i as u32));
            return false;
        }
        match node.parent {
            None => {
                if i != root.index() {
                    assert(!(sh[i as int].1 is None <==> i == root.0));
                    return false;
                }
            },
            Some(p) => {
                if i == root.index() {
                    assert(!(sh[i as int].1 is None <==> i == root.0));
                    return false;
                }
                if p.index() >= i {
                    assert(sh[i as int].1 is Some && !(sh[i as int].1.unwrap().0 < i));
                    return false;
                }
                assert(sh[p.0 as int] == (nodes@[p.0 as int].id, nodes@[p.0 as int].parent, nodes@[p.0 as int].children@));
                if !contains_id(&nodes[p.index()].children, NodeId(i as u32)) {
                    assert(!sh[p.0 as int].2.contains(NodeId(i as u32)));
                    return false;
                }
            },
        }
        i += 1;
    }
    true
}

fn children_checked<S>(nodes: &Vec<Node<S>>) -> (r: bool)
    requires
        nodes@.len() <= u32::MAX,
    ensures
        r == children_ok(shapes(nodes@), nodes@.len() as int),
{
    let ghost sh = shapes(nodes@);
    let n = nodes.len();
    let mut i: usize = 0;
    while i < n
        invariant
            n == nodes@.len(),
            sh == shapes(nodes@),
            n <= u32::MAX,
            i <= n,
            children_ok(sh, i as int),
        decreases n - i,
    {
        let cs = &nodes[i].children;
        assert(sh[i as int] == (nodes@[i as int].id, nodes@[i as int].parent, cs@));
        let mut k: usize = 0;
        while k < cs.len()
            invariant
                n == nodes@.len(),
                sh == shapes(nodes@),
                i < n,
                sh[i as int].2 == cs@,
                k <= cs@.len(),
                forall|k1: int|
                    0 <= k1 < k ==> {
                        let c = (#[trigger] cs@[k1]).0 as int;
                        &&& i < c < n
                        &&& sh[c].1 == Some(NodeId(i as u32))
                    },
                forall|k1: int, k2: int| 0 <= k1 < k && 0 <= k2 < k && k1 != k2 ==> cs@[k1] != cs@[k2],
            decreases cs@.len() - k,
        {
            let c = cs[k];
            assert(sh[i as int].2[k as int] == c);
            if c.index() <= i || c.index() >= n {
                return false;
            }
            assert(sh[c.0 as int] == (nodes@[c.0 as int].id, nodes@[c.0 as int].parent, nodes@[c.0 as int].children@));
            let ok = match nodes[c.index()].parent {
                Some(q) => q.index() == i,
                None => false,
            };
            if !ok {
                return false;
            }
            let mut k2: usize = 0;
            while k2 < k
                invariant
                    n == nodes@.len(),
                    sh == shapes(nodes@),
                    i < n,
                    sh[i as int].2 == cs@,
                    k < cs@.len(),
                    k2 <= k,
                    c == cs@[k as int],
                    forall|j: int| 0 <= j < k2 ==> cs@[j] != c,
                decreases k - k2,
            {
                if cs[k2] == c {
                    assert(cs@[k2 as int] == cs@[k as int]);
                    assert(!cs@.no_duplicates());
                    assert(!sh[i as int].2.no_duplicates());
                    return false;
                }
                k2 += 1;
            }
            k += 1;
        }
        i += 1;
    }
    true
}

/// What a well-formed tree says of one node `i`: its id, its parent link and its child links.
pub proof fn lemma_node_links<S>(n: Seq<Node<S>>, root: NodeId, i: int)
    requires
        nodes_wf(n, root),
        0 <= i < n.len(),
    ensures
        1 <= n.len() <= u32::MAX,
        0 <= root.0 < n.len(),
        n[i].id == NodeId(i as u32),
        n[i].parent is None <==> i == root.0,
        n[i].parent is Some ==> {
            let p = n[i].parent.unwrap().0 as int;
            &&& p < i
            &&& n[p].children@.contains(NodeId(i as u32))
        },
        forall|k: int|
            0 <= k < n[i].children@.len() ==> {
                let c = #[trigger] n[i].children@[k].0 as int;
                &&& i < c < n.len()
                &&& n[c].parent == Some(NodeId(i as u32))
            },
        n[i].children@.no_duplicates(),
{
    reveal(shape_wf);
    let sh = shapes(n);
    assert(sh[i] == (n[i].id, n[i].parent, n[i].children@));
    if n[i].parent is Some {
        let p = n[i].parent.unwrap().0 as int;
        assert(sh[p] == (n[p].id, n[p].parent, n[p].children@));
    }
    assert forall|k: int| 0 <= k < n[i].children@.len() implies {
        let c = #[trigger] n[i].children@[k].0 as int;
        &&& i < c < n.len()
        &&& n[c].parent == Some(NodeId(i as u32))
    } by {
        assert(sh[i].2[k] == n[i].children@[k]);
        let c = n[i].children@[k].0 as int;
        assert(sh[c] == (n[c].id, n[c].parent, n[c].children@));
    }
}

/// The path from `i` up to the root: it starts at `i`, each step goes to the parent (a
/// smaller index), and it ends at the root, the one node without a parent.
pub proof fn lemma_ancestry<S>(n: Seq<Node<S>>, root: NodeId, i: int)
    requires
        nodes_wf(n, root),
        0 <= i < n.len(),
    ensures
        ancestry(n, i).len() >= 1,
        ancestry(n, i)[0] == i,
        ancestry(n, i).last() == root.0,
        forall|k: int| 0 <= k < ancestry(n, i).len() ==> 0 <= #[trigger] ancestry(n, i)[k] <= i,
        forall|k: int|
            0 <= k < ancestry(n, i).len() - 1 ==> {
                &&& n[#[trigger] ancestry(n, i)[k]].parent is Some
                &&& ancestry(n, i)[k + 1] == n[ancestry(n, i)[k]].parent.unwrap().0
            },
        forall|j: int, k: int|
            0 <= j < k < ancestry(n, i).len() ==> #[trigger] ancestry(n, i)[j] > #[trigger] ancestry(
                n,
                i,
            )[k],
    decreases i,
{
    lemma_node_links(n, root, i);
    let a = ancestry(n, i);
    match n[i].parent {
        Some(p) => {
            let q = p.0 as int;
            lemma_ancestry(n, root, q);
            let b = ancestry(n, q);
            assert(a == seq![i].add(b));
            assert forall|k: int| 0 <= k < a.len() implies 0 <= #[trigger] a[k] <= i by {
                if k > 0 {
                    assert(a[k] == b[k - 1]);
                }
            }
            assert forall|k: int| 0 <= k < a.len() - 1 implies {
                &&& n[#[trigger] a[k]].parent is Some
                &&& a[k + 1] == n[a[k]].parent.unwrap().0
            } by {
                if k > 0 {
                    assert(a[k] == b[k - 1]);
                    assert(a[k + 1] == b[k]);
                }
            }
            assert forall|j: int, k: int| 0 <= j < k < a.len() implies #[trigger] a[j]
                > #[trigger] a[k] by {
                assert(a[k] == b[k - 1]);
                if j > 0 {
                    assert(a[j] == b[j - 1]);
                } else {
                    assert(b[k - 1] <= q);
                }
            }
        },
        None => {
            assert(a == seq![i]);
        },
    }
}

/// Every path from a node up the tree ends at the root: the root is an ancestor of every node.
pub proof fn lemma_root_is_ancestor<S>(n: Seq<Node<S>>, root: NodeId, i: int)
    requires
        nodes_wf(n, root),
        0 <= i < n.len(),
    ensures
        ancestry(n, i).contains(root.0 as int),
{
    lemma_ancestry(n, root, i);
    let a = ancestry(n, i);
    assert(a[a.len() - 1] == root.0);
}

/// Replacing a node by one with the same id, parent and children leaves the shape as it was.
pub proof fn lemma_update_keeps_shape<S>(n: Seq<Node<S>>, i: int, m: Node<S>)
    requires
        0 <= i < n.len(),
        m.id == n[i].id,
        m.parent == n[i].parent,
        m.children@ == n[i].children@,
    ensures
        shapes(n.update(i, m)) == shapes(n),
{
    assert(shapes(n.update(i, m)) =~= shapes(n));
}

/// Appending a new last child below node `p` keeps a shape well formed.
#[verifier::spinoff_prover]
#[verifier::rlimit(40)]
proof fn lemma_shape_add_child(sh: Seq<Link>, root: NodeId, p: int)
    requires
        shape_wf(sh, root),
        0 <= p < sh.len(),
        sh.len() < u32::MAX,
    ensures
        shape_wf(
            sh.update(p, (sh[p].0, sh[p].1, sh[p].2.push(NodeId(sh.len() as u32)))).push(
                (NodeId(sh.len() as u32), Some(NodeId(p as u32)), Seq::empty()),
            ),
            root,
        ),
{
    reveal(shape_wf);
    let len = sh.len();
    let id = NodeId(len as u32);
    let t = sh.update(p, (sh[p].0, sh[p].1, sh[p].2.push(id))).push(
        (id, Some(NodeId(p as u32)), Seq::empty()),
    );
    assert(sh[p].0 == NodeId(p as u32));
    assert(!sh[p].2.contains(id)) by {
        if sh[p].2.contains(id) {
            let k = choose|k: int| 0 <= k < sh[p].2.len() && sh[p].2[k] == id;
            assert(sh[p].2[k].0 < len);
        }
    }
    assert forall|i: int| 0 <= i < t.len() && (#[trigger] t[i]).1 is Some implies {
        let q = t[i].1.unwrap().0 as int;
        &&& q < i
        &&& t[q].2.contains(NodeId(i as u32))
    } by {
        if i < len {
            let q = sh[i].1.unwrap().0 as int;
            assert(sh[i] == sh[i]);
            assert(sh[q].2.contains(NodeId(i as u32)));
            if q == p {
                let k = choose|k: int| 0 <= k < sh[q].2.len() && sh[q].2[k] == NodeId(i as u32);
                assert(t[q].2[k] == NodeId(i as u32));
            }
        } else {
            assert(t[p].2[t[p].2.len() - 1] == id);
        }
    }
    assert forall|i: int, k: int|
        #![trigger t[i].2[k]]
        0 <= i < t.len() && 0 <= k < t[i].2.len() implies {
        let c = t[i].2[k].0 as int;
        &&& i < c < t.len()
        &&& t[c].1 == Some(NodeId(i as u32))
    } by {
        if i == p && k == sh[p].2.len() {
        } else {
            assert(t[i].2[k] == sh[i].2[k]);
            let c = sh[i].2[k].0 as int;
            assert(sh[c].1 == Some(NodeId(i as u32)));
        }
    }
    assert forall|i: int| 0 <= i < t.len() implies (#[trigger] t[i]).0 == NodeId(i as u32) by {
        if i < len {
            assert(sh[i].0 == NodeId(i as u32));
        }
    }
    assert forall|i: int| 0 <= i < t.len() implies ((#[trigger] t[i]).1 is None <==> i == root.0)
        by {
        if i < len {
            assert(sh[i].1 is None <==> i == root.0);
        }
    }
    assert forall|i: int| 0 <= i < t.len() implies (#[trigger] t[i]).2.no_duplicates() by {
        if i < len {
            assert(sh[i].2.no_duplicates());
        }
    }
}

} // verus!
