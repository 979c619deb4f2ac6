use vstd::prelude::*;

pub mod expand;
pub mod snapshot;

pub use expand::{expand_leaf, plan_leaf, LeafPlan};
pub use snapshot::tree_snapshot_entries;

use crate::search::NodeId;
use crate::text::{chars_eq, chars_of, split_tokens, tokens, views};

verus! {

/// Whether White is to move in an EPD text: its second field is `w`. A text with fewer
/// than two fields counts as White to move.
pub open spec fn epd_white_to_move(epd: Seq<char>) -> bool {
    tokens(epd).len() < 2 || tokens(epd)[1] == seq!['w']
}

/// Reads the side to move from the root position's EPD text (see `epd_white_to_move`).
pub fn root_is_white(epd: &str) -> (r: bool)
    ensures
        r == epd_white_to_move(epd@),
{
    let chars = chars_of(epd);
    let toks = split_tokens(&chars);
    if toks.len() < 2 {
        return true;
    }
    let w: Vec<char> = vec!['w'];
    assert(w@ =~= seq!['w']);
    assert(toks@[1]@ == tokens(epd@)[1]);
    chars_eq(&toks[1], &w)
}

/// The history of best moves after a snapshot at `iteration` whose best move is `best`:
/// the move is recorded only when it differs from the last one recorded.
pub open spec fn best_move_history_after(
    history: Seq<(u64, String)>,
    iteration: u64,
    best: String,
) -> Seq<(u64, String)> {
    if history.len() > 0 && history.last().1@ == best@ {
        history
    } else {
        history.push((iteration, best))
    }
}

/// Records the best move of a new snapshot in the history of best moves, unless it is the
/// move recorded last.
pub fn record_best_move(history: &mut Vec<(u64, String)>, iteration: u64, best: String)
    ensures
        final(history)@ == best_move_history_after(old(history)@, iteration, best),
{
    let n = history.len();
    if n > 0 {
        let last = chars_of(history[n - 1].1.as_str());
        let b = chars_of(best.as_str());
        if chars_eq(&last, &b) {
            return;
        }
    }
    history.push((iteration, best));
}

/// How many leaves the next batch selects: the configured batch size, but no more than
/// the nodes still allowed below the node limit.
pub fn batch_budget(batch_size: usize, max_nodes: u64, node_count: usize) -> (r: usize)
    requires
        node_count < max_nodes,
    ensures
        r == (if batch_size as int <= max_nodes - node_count {
            batch_size as int
        } else {
            max_nodes - node_count
        }),
{
    let room: u64 = max_nodes - node_count as u64;
    if (batch_size as u64) <= room {
        batch_size
    } else {
        room as usize
    }
}

/// Whether a leaf chosen for the current batch was already chosen earlier in the batch,
/// in which case it is backed up without being expanded a second time.
pub fn selected_before(selected: &[NodeId], leaf: NodeId) -> (r: bool)
    ensures
        r == selected@.contains(leaf),
{
    let mut k: usize = 0;
    while k < selected.len()
        invariant
            k <= selected@.len(),
            forall|j: int| 0 <= j < k ==> selected@[j] != leaf,
        decreases selected@.len() - k,
    {
        if selected[k] == leaf {
            assert(selected@[k as int] == leaf);
            return true;
        }
        k += 1;
    }
    false
}

/// What the search loop does next: whether it stops, and whether, after the iterations
/// just run, it logs a progress line, writes the tree to the cache and sends the user
/// interface a snapshot.
#[derive(Debug, Clone, Copy, PartialEq, Eq, Structural)]
pub struct LoopDecision {
    pub stop: bool,
    pub milestone: bool,
    pub flush: bool,
    pub snapshot: bool,
}

/// The search loop's decisions after `iteration` iterations, the last `step` of them run
/// in one go (one, or a batch): stop when cancelled or at the node limit; log every 100
/// iterations, flush every `flush_interval` and send a snapshot every `update_interval`
/// iterations (a step of several iterations counts when it crosses such a multiple), and
/// send a snapshot at the node limit too.
pub fn loop_decision(
    cancelled: bool,
    node_count: usize,
    max_nodes: u64,
    iteration: u64,
    step: u64,
    flush_interval: u64,
    update_interval: u64,
) -> (r: LoopDecision)
    requires
        step >= 1,
        flush_interval >= 1,
        update_interval >= 1,
    ensures
        r.stop == (cancelled || node_count >= max_nodes),
        r.milestone == (iteration % 100 < step),
        r.flush == (iteration % flush_interval < step),
        r.snapshot == (iteration % update_interval < step || node_count >= max_nodes),
{
    let at_limit = node_count as u64 >= max_nodes;
    LoopDecision {
        stop: cancelled || at_limit,
        milestone: iteration % 100 < step,
        flush: iteration % flush_interval < step,
        snapshot: iteration % update_interval < step || at_limit,
    }
}

} // verus!
