//! The walk of the explorer as a mathematical function: what the stack and
//! the memo hold after each step, and what the walk ends with.

use vstd::prelude::*;
use crate::board::{
    legal, lemma_at_most_196_jumps, lemma_listing_below, lemma_step, listing, pegs, solved, step,
    well_shaped, Board,
};
use crate::tile::Action;

verus! {

/// A node of the walk: a board, and the jumps that led to it.
pub struct Node {
    pub board: Board,
    pub moves: Seq<Action>,
}

/// The state of a walk: the nodes that wait, the last of them to be taken
/// first; the boards met so far; and the number of boards expanded.
pub struct Walk {
    pub stack: Seq<Node>,
    pub memo: Set<Board>,
    pub expanded: nat,
}

/// What a walk ends with: the node on which the game is won, if it met one;
/// the number of boards it expanded; and the number of boards it met.
pub struct Outcome {
    pub found: Option<Node>,
    pub expanded: nat,
    pub visited: nat,
}

/// The walk before its first step: the root waits, and its board is met.
pub open spec fn start(root: Node) -> Walk {
    Walk { stack: seq![root], memo: Set::<Board>::empty().insert(root.board), expanded: 0 }
}

/// The walk after one jump from `cur` is tried: if the board that the jump
/// makes was not met before, it is met now, and its node waits.
pub open spec fn offer(w: Walk, cur: Node, a: Action) -> Walk {
    let next = step(cur.board, a);
    if w.memo.contains(next) {
        w
    } else {
        Walk {
            stack: w.stack.push(Node { board: next, moves: cur.moves.push(a) }),
            memo: w.memo.insert(next),
            expanded: w.expanded,
        }
    }
}

/// The walk after the jumps from `cur` are tried in order.
pub open spec fn offer_all(w: Walk, cur: Node, jumps: Seq<Action>) -> Walk
    decreases jumps.len(),
{
    if jumps.len() == 0 {
        w
    } else {
        offer(offer_all(w, cur, jumps.drop_last()), cur, jumps.last())
    }
}

/// The walk after the node `cur`, taken from the stack, is expanded.
pub open spec fn expand(w: Walk) -> Walk {
    let cur = w.stack.last();
    offer_all(
        Walk { stack: w.stack.drop_last(), memo: w.memo, expanded: w.expanded + 1 },
        cur,
        listing(cur.board),
    )
}

/// A bound on the work that a board with so many pegs can still cause: the
/// board itself, and what each of at most 196 jumps leaves.
pub open spec fn weight(pegs: nat) -> nat
    decreases pegs,
{
    if pegs == 0 {
        1
    } else {
        1 + 196 * weight((pegs - 1) as nat)
    }
}

/// The weights of the boards that wait, added up.
pub open spec fn pending(stack: Seq<Node>) -> nat
    decreases stack.len(),
{
    if stack.len() == 0 {
        0
    } else {
        pending(stack.drop_last()) + weight(pegs(stack.last().board))
    }
}

/// Every board that waits has the shape of a board.
pub open spec fn shaped(w: Walk) -> bool {
    forall|i: int| 0 <= i < w.stack.len() ==> well_shaped((#[trigger] w.stack[i]).board)
}

/// What the walk ends with: it takes the last node from the stack; stops
/// there if the game is won on its board; else expands it and goes on; and
/// finds nothing once the stack is empty.
pub open spec fn run(w: Walk) -> Outcome
    decreases pending(w.stack),
    when shaped(w)
    via run_terminates
{
    if w.stack.len() == 0 {
        Outcome { found: None, expanded: w.expanded, visited: w.memo.len() }
    } else if solved(w.stack.last().board) {
        Outcome { found: Some(w.stack.last()), expanded: w.expanded, visited: w.memo.len() }
    } else {
        run(expand(w))
    }
}

#[via_fn]
proof fn run_terminates(w: Walk) {
    if w.stack.len() > 0 && !solved(w.stack.last().board) {
        lemma_expand(w);
    }
}

/// Putting a node on the stack adds its weight to what is pending.
pub proof fn lemma_pending_push(stack: Seq<Node>, node: Node)
    ensures
        pending(stack.push(node)) == pending(stack) + weight(pegs(node.board)),
{
    assert(stack.push(node).drop_last() =~= stack);
}

/// Trying legal jumps from a board keeps the shape of the boards that wait,
/// and adds to what is pending at most the weight of a board with one peg
/// fewer for each jump.
pub proof fn lemma_offer_all(w: Walk, cur: Node, jumps: Seq<Action>)
    requires
        shaped(w),
        well_shaped(cur.board),
        forall|i: int| 0 <= i < jumps.len() ==> legal(cur.board, #[trigger] jumps[i]),
    ensures
        shaped(offer_all(w, cur, jumps)),
        offer_all(w, cur, jumps).expanded == w.expanded,
        pending(offer_all(w, cur, jumps).stack) <= pending(w.stack) + jumps.len() * weight(
            (pegs(cur.board) - 1) as nat,
        ),
    decreases jumps.len(),
{
    let share = weight((pegs(cur.board) - 1) as nat);
    if jumps.len() > 0 {
        let before = offer_all(w, cur, jumps.drop_last());
        let a = jumps.last();
        lemma_offer_all(w, cur, jumps.drop_last());
        lemma_step(cur.board, a);
        let child = Node { board: step(cur.board, a), moves: cur.moves.push(a) };
        lemma_pending_push(before.stack, child);
        assert(jumps.len() * share == (jumps.len() - 1) * share + share) by (nonlinear_arith);
    }
}

/// Expanding the last node of the stack keeps the shape of the boards that
/// wait, counts one expansion, and leaves less pending than before.
pub proof fn lemma_expand(w: Walk)
    requires
        shaped(w),
        w.stack.len() > 0,
    ensures
        shaped(expand(w)),
        expand(w).expanded == w.expanded + 1,
        pending(expand(w).stack) < pending(w.stack),
{
    let cur = w.stack.last();
    let jumps = listing(cur.board);
    let popped = Walk { stack: w.stack.drop_last(), memo: w.memo, expanded: w.expanded + 1 };
    let share = weight((pegs(cur.board) - 1) as nat);
    lemma_listing_below(cur.board, 196);
    lemma_at_most_196_jumps(cur.board, jumps);
    assert forall|i: int| 0 <= i < jumps.len() implies legal(cur.board, #[trigger] jumps[i]) by {
        assert(jumps.contains(jumps[i]));
    }
    assert(shaped(popped)) by {
        assert forall|i: int| 0 <= i < popped.stack.len() implies well_shaped(
            (#[trigger] popped.stack[i]).board,
        ) by {
            assert(popped.stack[i] == w.stack[i]);
        }
    }
    lemma_offer_all(popped, cur, jumps);
    if jumps.len() > 0 {
        lemma_step(cur.board, jumps[0]);
        assert(jumps.len() * share <= 196 * share) by (nonlinear_arith)
            requires
                jumps.len() <= 196,
                share >= 0,
        ;
    }
}

} // verus!
