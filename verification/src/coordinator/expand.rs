use vstd::prelude::*;

use shakmaty::Chess;

use crate::position::{
    append_move, checkmate_of, count_of, epd_of, halfmoves_of, insufficient_of, move_error_text,
    outcome_spec, played_from, stalemate_of, step, string_views, white_to_move_of, GameOutcome,
    PositionState,
};
use crate::text::tokens;
use crate::search::{child_type, same_except_children, Node, NodeId, NodeType, SearchTree};

verus! {

/// The ids of the children that an expansion added, in order: one for each move that
/// could be played.
pub open spec fn added_ids(r: Seq<Result<(NodeId, Option<GameOutcome>), String>>) -> Seq<NodeId>
    decreases r.len(),
{
    if r.len() == 0 {
        seq![]
    } else {
        let a = added_ids(r.drop_last());
        match r.last() {
            Ok((id, _)) => a.push(id),
            Err(_) => a,
        }
    }
}

/// `n` is the node that expanding `leaf_id` (a node of type `leaf_type` whose position has
/// the move sequence `leaf_moves`) adds for the move `uci` with statistics `stats`.
pub open spec fn is_expansion_child<S>(
    n: Node<S>,
    id: NodeId,
    leaf_id: NodeId,
    leaf_type: NodeType,
    leaf_moves: Seq<char>,
    uci: String,
    stats: S,
) -> bool {
    &&& n.id == id
    &&& n.parent == Some(leaf_id)
    &&& n.move_uci == Some(uci)
    &&& n.node_type == child_type(leaf_type)
    &&& n.move_sequence@ == append_move(leaf_moves, uci@)
    &&& n.visit_count == 0
    &&& n.children@.len() == 0
    &&& !n.expanded
    &&& n.wdl is None
    &&& n.stats == stats
}

/// How a game ends at `c`, reached from a position whose game so far has the EPD texts
/// `trail`: what `terminal_outcome` says of the position after the move.
pub open spec fn outcome_after(c: Chess, trail: Seq<Seq<char>>) -> Option<GameOutcome> {
    outcome_spec(
        checkmate_of(c),
        stalemate_of(c),
        insufficient_of(c),
        white_to_move_of(c),
        halfmoves_of(c),
        count_of(trail.push(epd_of(c)), epd_of(c)),
    )
}

/// What happened to candidate `k` of an expansion of a leaf whose position is `leaf_chess`
/// (with the EPD texts `leaf_trail` of its game): the child it became when the move can
/// be played there (its id the next fresh one, its EPD that of the new position, with how
/// the game ends there), or the error that playing the move gave.
pub open spec fn candidate_outcome<S>(
    nodes: Seq<Node<S>>,
    base: int,
    leaf_id: NodeId,
    leaf_type: NodeType,
    leaf_moves: Seq<char>,
    leaf_chess: Chess,
    leaf_trail: Seq<Seq<char>>,
    cand: (String, S),
    r: Seq<Result<(NodeId, Option<GameOutcome>), String>>,
    k: int,
) -> bool {
    match r[k] {
        Ok((id, outcome)) => match step(leaf_chess, cand.0@) {
            Some(c) => {
                &&& id.0 == base + added_ids(r.take(k)).len()
                &&& is_expansion_child(nodes[id.0 as int], id, leaf_id, leaf_type, leaf_moves, cand.0, cand.1)
                &&& nodes[id.0 as int].epd@ == epd_of(c)
                &&& outcome == outcome_after(c, leaf_trail)
            },
            None => false,
        },
        Err(e) => step(leaf_chess, cand.0@) is None && e@ == move_error_text(cand.0@),
    }
}

proof fn lemma_added_ids_push(
    r: Seq<Result<(NodeId, Option<GameOutcome>), String>>,
    x: Result<(NodeId, Option<GameOutcome>), String>,
)
    ensures
        added_ids(r.push(x)) == match x {
            Ok((id, _)) => added_ids(r).push(id),
            Err(_) => added_ids(r),
        },
        forall|j: int| 0 <= j <= r.len() ==> #[trigger] r.push(x).take(j) == r.take(j),
{
    assert(r.push(x).drop_last() =~= r);
    assert forall|j: int| 0 <= j <= r.len() implies #[trigger] r.push(x).take(j) == r.take(j) by {
        assert(r.push(x).take(j) =~= r.take(j));
    }
}

/// Expands a leaf: plays each candidate move (with the statistics its child starts with) in
/// the leaf's position, adds a child of the alternate node type for each move that can be
/// played, in order, and marks the leaf expanded. Returns, per candidate, the new child and
/// how the game ends there if it does, or the error that playing the move gave.
pub fn expand_leaf<S>(
    tree: &mut SearchTree<S>,
    leaf_id: NodeId,
    position: &PositionState,
    candidates: Vec<(String, S)>,
) -> (r: Vec<Result<(NodeId, Option<GameOutcome>), String>>)
    requires
        old(tree).wf(),
        leaf_id.0 < old(tree).spec_nodes().len(),
        old(tree).spec_nodes().len() + candidates@.len() <= u32::MAX,
    ensures
        final(tree).wf(),
        final(tree).spec_root() == old(tree).spec_root(),
        r@.len() == candidates@.len(),
        final(tree).spec_nodes().len() == old(tree).spec_nodes().len() + added_ids(r@).len(),
        final(tree).spec_nodes()[leaf_id.0 as int].expanded,
        final(tree).spec_nodes()[leaf_id.0 as int].children@ == old(tree).spec_nodes()[leaf_id.0 as int].children@
            + added_ids(r@),
        final(tree).spec_nodes()[leaf_id.0 as int].id == old(tree).spec_nodes()[leaf_id.0 as int].id,
        final(tree).spec_nodes()[leaf_id.0 as int].parent == old(tree).spec_nodes()[leaf_id.0 as int].parent,
        final(tree).spec_nodes()[leaf_id.0 as int].visit_count == old(tree).spec_nodes()[leaf_id.0 as int].visit_count,
        final(tree).spec_nodes()[leaf_id.0 as int].stats == old(tree).spec_nodes()[leaf_id.0 as int].stats,
        final(tree).spec_nodes()[leaf_id.0 as int].move_uci == old(tree).spec_nodes()[leaf_id.0 as int].move_uci,
        final(tree).spec_nodes()[leaf_id.0 as int].node_type == old(tree).spec_nodes()[leaf_id.0 as int].node_type,
        final(tree).spec_nodes()[leaf_id.0 as int].epd == old(tree).spec_nodes()[leaf_id.0 as int].epd,
        final(tree).spec_nodes()[leaf_id.0 as int].move_sequence == old(tree).spec_nodes()[leaf_id.0 as int].move_sequence,
        final(tree).spec_nodes()[leaf_id.0 as int].wdl == old(tree).spec_nodes()[leaf_id.0 as int].wdl,
        forall|i: int|
            0 <= i < old(tree).spec_nodes().len() && i != leaf_id.0
                ==> #[trigger] final(tree).spec_nodes()[i] == old(tree).spec_nodes()[i],
        forall|k: int|
            0 <= k < r@.len() ==> #[trigger] candidate_outcome(
                final(tree).spec_nodes(),
                old(tree).spec_nodes().len() as int,
                leaf_id,
                old(tree).spec_nodes()[leaf_id.0 as int].node_type,
                position.move_sequence@,
                position.chess,
                string_views(position.epd_history@),
                candidates@[k],
                r@,
                k,
            ),
{
    let ghost old_nodes = tree.spec_nodes();
    let ghost base = old_nodes.len() as int;
    let ghost cands = candidates@;
    let ghost leaf_type = old_nodes[leaf_id.0 as int].node_type;
    let ghost leaf_moves = position.move_sequence@;
    let ghost leaf_chess = position.chess;
    let ghost leaf_trail = string_views(position.epd_history@);
    let n = candidates.len();
    let mut rest = candidates;
    let mut r: Vec<Result<(NodeId, Option<GameOutcome>), String>> = Vec::new();
    let child_kind = tree.get(leaf_id).unwrap().node_type.child();
    let mut k: usize = 0;
    while k < n
        invariant
            n == cands.len(),
            k <= n,
            rest@ == cands.subrange(k as int, n as int),
            r@.len() == k,
            tree.wf(),
            tree.spec_root() == old(tree).spec_root(),
            base == old_nodes.len(),
            base + cands.len() <= u32::MAX,
            leaf_id.0 < base,
            leaf_type == old_nodes[leaf_id.0 as int].node_type,
            leaf_moves == position.move_sequence@,
            leaf_chess == position.chess,
            leaf_trail == string_views(position.epd_history@),
            child_kind == child_type(leaf_type),
            tree.spec_nodes().len() == base + added_ids(r@).len(),
            added_ids(r@).len() <= k,
            tree.spec_nodes()[leaf_id.0 as int].children@ == old_nodes[leaf_id.0 as int].children@
                + added_ids(r@),
            same_except_children(tree.spec_nodes()[leaf_id.0 as int], old_nodes[leaf_id.0 as int]),
            forall|i: int|
                0 <= i < base && i != leaf_id.0 ==> #[trigger] tree.spec_nodes()[i] == old_nodes[i],
            forall|j: int|
                0 <= j < k ==> #[trigger] candidate_outcome(
                    tree.spec_nodes(),
                    base,
                    leaf_id,
                    leaf_type,
                    leaf_moves,
                    leaf_chess,
                    leaf_trail,
                    cands[j],
                    r@,
                    j,
                ),
        decreases n - k,
    {
        let ghost r_before = r@;
        let ghost nodes_before = tree.spec_nodes();
        let (uci, stats) = rest.remove(0);
        assert((uci, stats) == cands[k as int]);
        match position.apply_uci(uci.as_str()) {
            Ok(new_pos) => {
                let outcome = new_pos.terminal_outcome();
                let child_id = tree.add_child(
                    leaf_id,
                    uci,
                    child_kind,
                    new_pos.epd,
                    new_pos.move_sequence,
                    stats,
                );
                r.push(Ok((child_id, outcome)));
                proof {
                    lemma_added_ids_push(r_before, Ok((child_id, outcome)));
                    assert(r@ == r_before.push(Ok((child_id, outcome))));
                    assert forall|j: int| 0 <= j < k + 1 implies #[trigger] candidate_outcome(
                        tree.spec_nodes(),
                        base,
                        leaf_id,
                        leaf_type,
                        leaf_moves,
                        leaf_chess,
                        leaf_trail,
                        cands[j],
                        r@,
                        j,
                    ) by {
                        if j < k {
                            assert(candidate_outcome(nodes_before, base, leaf_id, leaf_type, leaf_moves, leaf_chess, leaf_trail, cands[j], r_before, j));
                            assert(r@[j] == r_before[j]);
                            assert(r@.take(j) == r_before.take(j));
                            match r_before[j] {
                                Ok((id, _)) => {
                                    lemma_added_ids_prefix(r_before, j);
                                    assert(id.0 < nodes_before.len());
                                    assert(id.0 != leaf_id.0);
                                    assert(tree.spec_nodes()[id.0 as int] == nodes_before[id.0 as int]);
                                },
                                Err(_) => {},
                            }
                        } else {
                            assert(r@.take(j) == r_before);
                        }
                    }
                }
            },
            Err(e) => {
                let ghost eg = e;
                r.push(Err(e));
                proof {
                    lemma_added_ids_push(r_before, r@.last());
                    assert(r@ == r_before.push(r@.last()));
                    assert(r@[k as int] == Err::<(NodeId, Option<GameOutcome>), String>(eg));
                    assert forall|j: int| 0 <= j < k + 1 implies #[trigger] candidate_outcome(
                        tree.spec_nodes(),
                        base,
                        leaf_id,
                        leaf_type,
                        leaf_moves,
                        leaf_chess,
                        leaf_trail,
                        cands[j],
                        r@,
                        j,
                    ) by {
                        if j < k {
                            assert(candidate_outcome(nodes_before, base, leaf_id, leaf_type, leaf_moves, leaf_chess, leaf_trail, cands[j], r_before, j));
                            assert(r@[j] == r_before[j]);
                            assert(r@.take(j) == r_before.take(j));
                        }
                    }
                }
            },
        }
        k += 1;
        proof {
            assert(rest@ =~= cands.subrange(k as int, n as int));
        }
    }
    let ghost before_mark = tree.spec_nodes();
    tree.mark_expanded(leaf_id);
    proof {
        assert forall|k2: int| 0 <= k2 < r@.len() implies #[trigger] candidate_outcome(
            tree.spec_nodes(),
            base,
            leaf_id,
            leaf_type,
            leaf_moves,
            leaf_chess,
            leaf_trail,
            cands[k2],
            r@,
            k2,
        ) by {
            assert(candidate_outcome(before_mark, base, leaf_id, leaf_type, leaf_moves, leaf_chess, leaf_trail, cands[k2], r@, k2));
            match r@[k2] {
                Ok((id, _)) => {
                    lemma_added_ids_prefix(r@, k2);
                    assert(id.0 != leaf_id.0);
                    assert(tree.spec_nodes()[id.0 as int] == before_mark[id.0 as int]);
                },
                Err(_) => {},
            }
        }
    }
    r
}

/// The ids added by a prefix are fewer than those added by the whole, and an `Ok` entry's
/// position among them is below the total.
proof fn lemma_added_ids_prefix(r: Seq<Result<(NodeId, Option<GameOutcome>), String>>, j: int)
    requires
        0 <= j < r.len(),
    ensures
        added_ids(r.take(j)).len() <= added_ids(r).len(),
        r[j] is Ok ==> added_ids(r.take(j)).len() < added_ids(r).len(),
    decreases r.len() - j,
{
    let t = r.take(j + 1);
    assert(t.drop_last() =~= r.take(j));
    assert(t.last() == r[j]);
    if j + 1 < r.len() {
        lemma_added_ids_prefix(r, j + 1);
        lemma_added_ids_take_mono(r, j + 1);
    } else {
        assert(t =~= r);
    }
}

proof fn lemma_added_ids_take_mono(r: Seq<Result<(NodeId, Option<GameOutcome>), String>>, j: int)
    requires
        0 <= j <= r.len(),
    ensures
        added_ids(r.take(j)).len() <= added_ids(r).len(),
    decreases r.len() - j,
{
    if j < r.len() {
        lemma_added_ids_take_mono(r, j + 1);
        let t = r.take(j + 1);
        assert(t.drop_last() =~= r.take(j));
    } else {
        assert(r.take(j) =~= r);
    }
}

/// What to do with a leaf that selection reached.
pub enum LeafPlan {
    /// The game had already ended there: back up the stored terminal value.
    StoredTerminal,
    /// The leaf was expanded and evaluated before (selection came back to it): back up
    /// its stored win/draw/loss evaluation again.
    StoredWdl((u32, u32, u32)),
    /// The game ends in the leaf's position: score the outcome and mark the leaf expanded.
    Finished(GameOutcome),
    /// The position needs an evaluation (from the cache or the engines).
    Evaluate(PositionState),
}

/// How the game ends in a position: what `terminal_outcome` returns for it.
pub open spec fn state_outcome(p: PositionState) -> Option<GameOutcome> {
    outcome_spec(
        checkmate_of(p.chess),
        stalemate_of(p.chess),
        insufficient_of(p.chess),
        white_to_move_of(p.chess),
        halfmoves_of(p.chess),
        count_of(string_views(p.epd_history@), p.epd@),
    )
}

/// The plan for a leaf whose position `from_moves` gave as `res`: the error, the outcome
/// when the game ends there, or an evaluation of the position.
pub open spec fn plan_for(res: Result<PositionState, String>, r: Result<LeafPlan, String>) -> bool {
    match res {
        Err(e) => r == Err::<LeafPlan, String>(e),
        Ok(p) => match state_outcome(p) {
            Some(o) => r == Ok::<LeafPlan, String>(LeafPlan::Finished(o)),
            None => r == Ok::<LeafPlan, String>(LeafPlan::Evaluate(p)),
        },
    }
}

/// Decides what a selected leaf needs, in this order: a terminal value already stored
/// there (`has_terminal`) is backed up as it is; an expanded leaf with a stored evaluation
/// reuses it; otherwise the leaf's position is rebuilt from its moves, and either the game
/// has ended there or the position needs an evaluation. An error comes only from
/// rebuilding the position.
pub fn plan_leaf<S>(tree: &SearchTree<S>, leaf_id: NodeId, has_terminal: bool) -> (r: Result<LeafPlan, String>)
    requires
        leaf_id.0 < tree.spec_nodes().len(),
    ensures
        has_terminal ==> r == Ok::<LeafPlan, String>(LeafPlan::StoredTerminal),
        !has_terminal && tree.spec_nodes()[leaf_id.0 as int].expanded
            && tree.spec_nodes()[leaf_id.0 as int].wdl is Some ==> r == Ok::<LeafPlan, String>(
            LeafPlan::StoredWdl(tree.spec_nodes()[leaf_id.0 as int].wdl->0),
        ),
        !has_terminal && !(tree.spec_nodes()[leaf_id.0 as int].expanded
            && tree.spec_nodes()[leaf_id.0 as int].wdl is Some) ==> exists|
            s: Chess,
            res: Result<PositionState, String>,
        |
            #[trigger] played_from(s, tokens(tree.spec_nodes()[leaf_id.0 as int].move_sequence@), res)
                && plan_for(res, r),
{
    let leaf = tree.get(leaf_id).unwrap();
    if has_terminal {
        return Ok(LeafPlan::StoredTerminal);
    }
    if leaf.expanded {
        match leaf.wdl {
            Some(w) => {
                return Ok(LeafPlan::StoredWdl(w));
            },
            None => {},
        }
    }
    let res = PositionState::from_moves(leaf.move_sequence.as_str());
    let ghost t = tokens(leaf.move_sequence@);
    let ghost gres = res;
    let ghost s = choose|s: Chess| #[trigger] played_from(s, t, gres);
    let r = match res {
        Err(e) => Err(e),
        Ok(p) => match p.terminal_outcome() {
            Some(o) => Ok(LeafPlan::Finished(o)),
            None => Ok(LeafPlan::Evaluate(p)),
        },
    };
    assert(played_from(s, t, gres) && plan_for(gres, r));
    r
}

} // verus!
