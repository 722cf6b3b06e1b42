//! The explorer: a depth-first walk over the boards that legal jumps reach
//! from a starting board, which remembers the boards it has met, expands none
//! of them twice, and stops at the first board on which the game is won.

use std::collections::HashSet;
use vstd::prelude::*;
use vstd::set_lib::{lemma_len_subset, lemma_map_size};
use vstd::std_specs::hash::spec_hash_set_len;
use crate::board::{
    in_range, initial_board, legal, lemma_play, lemma_solved_boards_agree, lemma_step, pegs, play,
    playable, reachable, solved, step, well_shaped, Board,
};
use crate::code::{key, lemma_key_injective};
use crate::grid::Grid;
use crate::tile::{Action, Tile};
use crate::walk::{
    expand, lemma_expand, offer, offer_all, pending, run, shaped, start, Node, Outcome, Walk,
};

verus! {

/// A node of the search: a board, and the jumps that led to it.
#[derive(Clone, Debug)]
pub struct GameTree {
    pub state: Grid,
    pub history: Vec<Action>,
}

/// What an exploration has found, and how much work it took.
#[derive(Clone, Debug)]
pub struct Exploration {
    /// The node on which the game is won, if the walk met one.
    pub found: Option<GameTree>,
    /// The number of boards whose jumps were listed and made.
    pub expanded: usize,
    /// The number of different boards that the walk has met.
    pub visited: usize,
}

impl View for GameTree {
    type V = Node;

    /// The node as the model of the walk sees it.
    open spec fn view(&self) -> Node {
        Node { board: self.state@, moves: self.history@ }
    }
}

impl View for Exploration {
    type V = Outcome;

    /// The exploration as the model of the walk sees it.
    open spec fn view(&self) -> Outcome {
        Outcome {
            found: node_of(self.found),
            expanded: self.expanded as nat,
            visited: self.visited as nat,
        }
    }
}

/// The node found, if any, as the model of the walk sees it.
pub open spec fn node_of(found: Option<GameTree>) -> Option<Node> {
    match found {
        Some(node) => Some(node@),
        None => None,
    }
}

/// The jumps that `node` has made since `root`.
pub open spec fn jumps_since(root: GameTree, node: GameTree) -> Seq<Action> {
    node.history@.skip(root.history@.len() as int)
}

/// The node descends from the root: its history is that of the root followed by
/// legal jumps, and these jumps make its board of the root's.
pub open spec fn descends(root: GameTree, node: GameTree) -> bool {
    &&& root.history@.is_prefix_of(node.history@)
    &&& playable(root.state@, jumps_since(root, node))
    &&& play(root.state@, jumps_since(root, node)) == node.state@
}

/// What a search from `root` may answer: a node that descends from the root
/// and on which the game is won; or nothing, and then no sequence of legal
/// jumps from the root's board wins the game.
pub open spec fn answers(root: GameTree, found: Option<GameTree>) -> bool {
    match found {
        Some(node) => descends(root, node) && solved(node.state@),
        None => forall|moves: Seq<Action>| #[trigger]
            playable(root.state@, moves) ==> !solved(play(root.state@, moves)),
    }
}

/// The history of a node that descends from the root is longer than the
/// root's by the number of pegs that have left the board since, and the two
/// boards are blocked on the same cells.
pub proof fn lemma_descendant(root: GameTree, node: GameTree)
    requires
        descends(root, node),
    ensures
        node.history@.len() + pegs(node.state@) == root.history@.len() + pegs(root.state@),
        forall|x: int, y: int|
            in_range(x, y) ==> ((#[trigger] node.state@[x][y] == Tile::Blocked)
                <==> root.state@[x][y] == Tile::Blocked),
{
    root.state.lemma_view_well_shaped();
    lemma_play(root.state@, jumps_since(root, node));
    assert forall|x: int, y: int| in_range(x, y) implies ((#[trigger] node.state@[x][y]
        == Tile::Blocked) <==> root.state@[x][y] == Tile::Blocked) by {
        assert((root.state@[x][y] == Tile::Blocked) <==> node.state@[x][y] == Tile::Blocked);
    }
}

/// Two searches from one root agree: either both find nothing, or both find
/// a node, and then the two nodes hold the same board and histories of the
/// same length, which is the root's and one jump for each peg but the last.
pub proof fn lemma_answers_agree(
    root: GameTree,
    first: Option<GameTree>,
    second: Option<GameTree>,
)
    requires
        answers(root, first),
        answers(root, second),
    ensures
        first is Some <==> second is Some,
        first is Some ==> first->0.state@ == second->0.state@,
        first is Some ==> first->0.history@.len() == second->0.history@.len(),
        first is Some ==> first->0.history@.len() + 1 == root.history@.len() + pegs(root.state@),
{
    root.state.lemma_view_well_shaped();
    if first is Some {
        let n1 = first->0;
        lemma_descendant(root, n1);
        lemma_play(root.state@, jumps_since(root, n1));
        if second is Some {
            let n2 = second->0;
            lemma_descendant(root, n2);
            lemma_play(root.state@, jumps_since(root, n2));
            assert forall|x: int, y: int| in_range(x, y) implies ((#[trigger] n1.state@[x][y]
                == Tile::Blocked) <==> n2.state@[x][y] == Tile::Blocked) by {
                assert((root.state@[x][y] == Tile::Blocked) <==> n1.state@[x][y] == Tile::Blocked);
                assert((root.state@[x][y] == Tile::Blocked) <==> n2.state@[x][y] == Tile::Blocked);
            }
            lemma_solved_boards_agree(n1.state@, n2.state@);
        }
    } else if second is Some {
        let n2 = second->0;
        assert(playable(root.state@, jumps_since(root, n2)));
    }
}

/// The key of the board of the node at place `i` of the stack.
spec fn key_at(stack: Seq<GameTree>, i: int) -> u128 {
    key(stack[i].state@)
}

/// Some node of the stack holds the board with this key.
spec fn on_stack(stack: Seq<GameTree>, k: u128) -> bool {
    exists|i: int| 0 <= i < stack.len() && #[trigger] key_at(stack, i) == k
}

/// The boards that sequences of legal jumps make of `root`, `root` itself among
/// them.
pub open spec fn reachable_boards(root: Board) -> Set<Board> {
    Set::new(|b: Board| reachable(root, b))
}

/// Some sequence of legal jumps makes of `root` the board with this key.
spec fn met(root: Board, k: u128) -> bool {
    exists|moves: Seq<Action>| playable(root, moves) && key(#[trigger] play(root, moves)) == k
}

/// The state of a walk hangs together. `memo` holds the keys of the boards met,
/// `closed` those of the boards expanded, `current` that of the board being
/// expanded, if there is one.
spec fn consistent(
    root: GameTree,
    stack: Seq<GameTree>,
    memo: Set<u128>,
    closed: Set<u128>,
    current: Option<u128>,
) -> bool {
    &&& memo.finite()
    &&& closed.subset_of(memo)
    &&& memo.contains(key(root.state@))
    &&& forall|k: u128| #[trigger] memo.contains(k) ==> met(root.state@, k)
    &&& forall|i: int|
        0 <= i < stack.len() ==> descends(root, #[trigger] stack[i]) && memo.contains(
            key_at(stack, i),
        ) && !closed.contains(key_at(stack, i)) && current != Some(key_at(stack, i))
    &&& forall|i: int, j: int|
        0 <= i < j < stack.len() ==> #[trigger] key_at(stack, i) != #[trigger] key_at(stack, j)
    &&& forall|k: u128| #[trigger]
        memo.contains(k) ==> closed.contains(k) || on_stack(stack, k) || current == Some(k)
    &&& current matches Some(k) ==> memo.contains(k) && !closed.contains(k)
    &&& forall|b: Board, a: Action|
        well_shaped(b) && closed.contains(key(b)) && legal(b, a) ==> memo.contains(
            #[trigger] key(step(b, a)),
        )
    &&& forall|b: Board| well_shaped(b) && closed.contains(#[trigger] key(b)) ==> !solved(b)
}

/// The nodes of the stack as the model of the walk sees them.
spec fn nodes(stack: Seq<GameTree>) -> Seq<Node> {
    Seq::new(stack.len(), |i: int| stack[i]@)
}

/// The function that gives each board its key.
spec fn key_fn() -> spec_fn(Board) -> u128 {
    |b: Board| key(b)
}

/// The set of keys holds the keys of the boards of the set of boards, which
/// is finite and holds nothing but boards of the right shape.
spec fn tracks(boards: Set<Board>, keys: Set<u128>) -> bool {
    &&& boards.finite()
    &&& forall|b: Board| boards.contains(b) ==> well_shaped(b)
    &&& keys == boards.map(key_fn())
}

/// A board is in the set of boards exactly if its key is in the set of keys.
proof fn lemma_tracks_contains(boards: Set<Board>, keys: Set<u128>, b: Board)
    requires
        tracks(boards, keys),
        well_shaped(b),
    ensures
        boards.contains(b) <==> keys.contains(key(b)),
{
    if keys.contains(key(b)) {
        let other = choose|other: Board| boards.contains(other) && key(b) == key_fn()(other);
        lemma_key_injective(b, other);
    }
    if boards.contains(b) {
        assert(key_fn()(b) == key(b));
    }
}

/// A new board and its key keep the two sets in step.
proof fn lemma_tracks_insert(boards: Set<Board>, keys: Set<u128>, b: Board)
    requires
        tracks(boards, keys),
        well_shaped(b),
    ensures
        tracks(boards.insert(b), keys.insert(key(b))),
{
    boards.lemma_set_map_insert_commute(b, key_fn());
}

/// The two sets have the same number of elements.
proof fn lemma_tracks_len(boards: Set<Board>, keys: Set<u128>)
    requires
        tracks(boards, keys),
    ensures
        boards.len() == keys.len(),
{
    assert forall|b1: Board, b2: Board|
        boards.contains(b1) && boards.contains(b2) && #[trigger] key_fn()(b1) == #[trigger] key_fn()(
            b2,
        ) implies b1 == b2 by {
        lemma_key_injective(b1, b2);
    }
    lemma_map_size(boards, keys, key_fn());
}

/// A walk that has met the root's board alone, and has it on the stack, hangs
/// together.
proof fn lemma_start(root: GameTree, first: GameTree)
    requires
        first.state@ == root.state@,
        first.history@ == root.history@,
    ensures
        consistent(
            root,
            seq![first],
            Set::<u128>::empty().insert(key(root.state@)),
            Set::<u128>::empty(),
            None,
        ),
{
    let stack = seq![first];
    let none = Seq::<Action>::empty();
    assert(jumps_since(root, first) =~= none);
    assert(key_at(stack, 0) == key(root.state@));
    assert(key(play(root.state@, none)) == key(root.state@));
}

/// Taking the last node off the stack makes its board the current one.
proof fn lemma_pop(root: GameTree, stack: Seq<GameTree>, memo: Set<u128>, closed: Set<u128>)
    requires
        consistent(root, stack, memo, closed, None),
        stack.len() > 0,
    ensures
        consistent(root, stack.drop_last(), memo, closed, Some(key(stack.last().state@))),
{
    let rest = stack.drop_last();
    let kc = key(stack.last().state@);
    assert(kc == key_at(stack, stack.len() - 1));
    assert forall|i: int| 0 <= i < rest.len() implies descends(root, #[trigger] rest[i])
        && memo.contains(key_at(rest, i)) && !closed.contains(key_at(rest, i)) && Some(kc) != Some(
        key_at(rest, i),
    ) by {
        assert(rest[i] == stack[i]);
        assert(key_at(rest, i) == key_at(stack, i));
    }
    assert forall|i: int, j: int| 0 <= i < j < rest.len() implies #[trigger] key_at(rest, i)
        != #[trigger] key_at(rest, j) by {
        assert(key_at(rest, i) == key_at(stack, i));
        assert(key_at(rest, j) == key_at(stack, j));
    }
    assert forall|k: u128| #[trigger] memo.contains(k) implies closed.contains(k) || on_stack(
        rest,
        k,
    ) || Some(kc) == Some(k) by {
        if !closed.contains(k) && k != kc {
            let i = choose|i: int| 0 <= i < stack.len() && #[trigger] key_at(stack, i) == k;
            assert(key_at(rest, i) == k);
        }
    }
}

/// Putting a node with a board not met before on the stack, and its key into
/// the memo, keeps the walk together.
proof fn lemma_push(
    root: GameTree,
    stack: Seq<GameTree>,
    memo: Set<u128>,
    closed: Set<u128>,
    kc: u128,
    child: GameTree,
)
    requires
        consistent(root, stack, memo, closed, Some(kc)),
        descends(root, child),
        !memo.contains(key(child.state@)),
    ensures
        consistent(root, stack.push(child), memo.insert(key(child.state@)), closed, Some(kc)),
{
    let grown = stack.push(child);
    let k = key(child.state@);
    assert(key(play(root.state@, jumps_since(root, child))) == k);
    assert forall|i: int| 0 <= i < grown.len() implies descends(root, #[trigger] grown[i])
        && memo.insert(k).contains(key_at(grown, i)) && !closed.contains(key_at(grown, i)) && Some(
        kc,
    ) != Some(key_at(grown, i)) by {
        if i < stack.len() {
            assert(grown[i] == stack[i]);
            assert(key_at(grown, i) == key_at(stack, i));
        }
    }
    assert forall|i: int, j: int| 0 <= i < j < grown.len() implies #[trigger] key_at(grown, i)
        != #[trigger] key_at(grown, j) by {
        assert(key_at(grown, i) == key_at(stack, i));
        if j < stack.len() {
            assert(key_at(grown, j) == key_at(stack, j));
        }
    }
    assert forall|m: u128| #[trigger] memo.insert(k).contains(m) implies closed.contains(m)
        || on_stack(grown, m) || Some(kc) == Some(m) by {
        if m == k {
            assert(key_at(grown, stack.len() as int) == m);
        } else if !closed.contains(m) && m != kc {
            assert(memo.contains(m));
            let i = choose|i: int| 0 <= i < stack.len() && #[trigger] key_at(stack, i) == m;
            assert(key_at(grown, i) == m);
        }
    }
}

/// Once every jump of the current board leads to a board in the memo, and the
/// game is not won on it, the board is closed; and the closed boards are one
/// more, and no more than the memo holds.
proof fn lemma_close(
    root: GameTree,
    stack: Seq<GameTree>,
    memo: Set<u128>,
    closed: Set<u128>,
    cur: Board,
)
    requires
        consistent(root, stack, memo, closed, Some(key(cur))),
        well_shaped(cur),
        !solved(cur),
        forall|a: Action| legal(cur, a) ==> memo.contains(#[trigger] key(step(cur, a))),
    ensures
        consistent(root, stack, memo, closed.insert(key(cur)), None),
        closed.finite(),
        closed.insert(key(cur)).len() == closed.len() + 1,
        closed.len() + 1 <= memo.len(),
{
    let kc = key(cur);
    let wider = closed.insert(kc);
    lemma_len_subset(closed, memo);
    lemma_len_subset(wider, memo);
    assert forall|b: Board, a: Action|
        well_shaped(b) && wider.contains(key(b)) && legal(b, a) implies memo.contains(
        #[trigger] key(step(b, a)),
    ) by {
        if key(b) == kc {
            lemma_key_injective(b, cur);
        }
    }
    assert forall|b: Board| well_shaped(b) && wider.contains(#[trigger] key(b)) implies !solved(
        b,
    ) by {
        if key(b) == kc {
            lemma_key_injective(b, cur);
        }
    }
}

/// The board that a sequence of legal jumps makes of the root's board is
/// closed, once the stack is empty.
proof fn lemma_all_closed(root: GameTree, memo: Set<u128>, closed: Set<u128>, moves: Seq<Action>)
    requires
        consistent(root, Seq::<GameTree>::empty(), memo, closed, None),
        playable(root.state@, moves),
    ensures
        well_shaped(play(root.state@, moves)),
        closed.contains(key(play(root.state@, moves))),
    decreases moves.len(),
{
    root.state.lemma_view_well_shaped();
    lemma_play(root.state@, moves);
    if moves.len() == 0 {
        assert(memo.contains(key(root.state@)));
    } else {
        let before = play(root.state@, moves.drop_last());
        lemma_all_closed(root, memo, closed, moves.drop_last());
        assert(memo.contains(key(step(before, moves.last()))));
    }
}

/// When the stack is empty, every board met has been expanded, the boards met
/// are the boards that legal jumps reach from the root's board, and no
/// sequence of legal jumps from the root's board wins the game.
proof fn lemma_exhausted(root: GameTree, memo: Set<u128>, closed: Set<u128>, boards: Set<Board>)
    requires
        consistent(root, Seq::<GameTree>::empty(), memo, closed, None),
        tracks(boards, memo),
    ensures
        memo == closed,
        answers(root, None),
        boards == reachable_boards(root.state@),
{
    let start = root.state@;
    assert(memo =~= closed);
    assert forall|moves: Seq<Action>| #[trigger] playable(start, moves) implies !solved(
        play(start, moves),
    ) by {
        lemma_all_closed(root, memo, closed, moves);
    }
    assert forall|b: Board| boards.contains(b) <==> reachable(start, b) by {
        if boards.contains(b) {
            lemma_tracks_contains(boards, memo, b);
            let moves = choose|moves: Seq<Action>|
                playable(start, moves) && key(#[trigger] play(start, moves)) == key(b);
            root.state.lemma_view_well_shaped();
            lemma_play(start, moves);
            lemma_key_injective(play(start, moves), b);
        }
        if reachable(start, b) {
            let moves = choose|moves: Seq<Action>|
                playable(start, moves) && #[trigger] play(start, moves) == b;
            lemma_all_closed(root, memo, closed, moves);
            lemma_tracks_contains(boards, memo, b);
        }
    }
    assert(boards =~= reachable_boards(start));
}

/// A node that adds one legal jump to a node that descends from the root
/// descends from the root.
proof fn lemma_child(root: GameTree, cur: GameTree, child: GameTree, a: Action)
    requires
        descends(root, cur),
        legal(cur.state@, a),
        child.state@ == step(cur.state@, a),
        child.history@ == cur.history@.push(a),
    ensures
        descends(root, child),
{
    let m = jumps_since(root, cur);
    let n = jumps_since(root, child);
    assert(n =~= m.push(a));
    assert(n.drop_last() =~= m);
}

/// The boards of nodes are boards of the right shape.
proof fn lemma_nodes_shaped(stack: Seq<GameTree>, memo: Set<Board>, expanded: nat)
    ensures
        shaped(Walk { stack: nodes(stack), memo, expanded }),
{
    assert forall|i: int| 0 <= i < stack.len() implies well_shaped(
        (#[trigger] nodes(stack)[i]).board,
    ) by {
        stack[i].state.lemma_view_well_shaped();
    }
}

/// Trying one legal jump in the model does what the explorer does with the
/// keys: the board that the jump makes is new to the one exactly if its key
/// is new to the other, and then both take it in.
proof fn lemma_offer(w: Walk, keys: Set<u128>, cur: Node, a: Action)
    requires
        tracks(w.memo, keys),
        well_shaped(cur.board),
        legal(cur.board, a),
    ensures
        w.memo.contains(step(cur.board, a)) <==> keys.contains(key(step(cur.board, a))),
        keys.contains(key(step(cur.board, a))) ==> offer(w, cur, a) == w,
        !keys.contains(key(step(cur.board, a))) ==> tracks(
            offer(w, cur, a).memo,
            keys.insert(key(step(cur.board, a))),
        ),
{
    let next = step(cur.board, a);
    lemma_step(cur.board, a);
    lemma_tracks_contains(w.memo, keys, next);
    if !keys.contains(key(next)) {
        lemma_tracks_insert(w.memo, keys, next);
    }
}

impl Default for GameTree {
    /// The node at which the game starts: the starting position, and no jump
    /// made.
    fn default() -> (node: GameTree)
        ensures
            node.state@ == initial_board(),
            node.history@ == Seq::<Action>::empty(),
    {
        GameTree::new(Grid::new(), Vec::new())
    }
}

impl GameTree {
    /// A node with the given board and history.
    pub fn new(state: Grid, history: Vec<Action>) -> (node: GameTree)
        ensures
            node.state == state,
            node.history == history,
    {
        GameTree { state, history }
    }

    /// Looks for a sequence of legal jumps that wins the game from this node's
    /// board. The node found holds the board on which the game is won, and
    /// this node's history followed by the jumps that led there; it is the
    /// first such node that the depth-first walk takes from its stack.
    pub fn search(&self) -> (found: Option<GameTree>)
        ensures
            node_of(found) == run(start(self@)).found,
            answers(*self, found),
    {
        self.explore().found
    }

    /// Walks depth first over the boards that legal jumps reach from this
    /// node's board, until it takes a board on which the game is won from the
    /// stack, or the stack is empty. A board met before is not put on the stack
    /// again, so no board is expanded twice.
    pub fn explore(&self) -> (done: Exploration)
        ensures
            done@ == run(start(self@)),
            answers(*self, done.found),
            done.expanded <= done.visited,
            done.found is Some ==> done.expanded < done.visited,
            done.found is None ==> done.expanded == done.visited && done.visited
                == reachable_boards(self.state@).len(),
    {
        let mut memo: HashSet<u128> = HashSet::new();
        let mut stack: Vec<GameTree> = Vec::new();
        let mut expanded: usize = 0;
        let ghost mut closed: Set<u128> = Set::empty();
        let ghost mut walk: Walk = start(self@);
        memo.insert(self.state.code());
        let first = GameTree::new(self.state, self.history.clone());
        proof {
            lemma_start(*self, first);
            self.state.lemma_view_well_shaped();
            assert(Set::<Board>::empty().map(key_fn()) =~= Set::<u128>::empty());
            lemma_tracks_insert(Set::<Board>::empty(), Set::<u128>::empty(), self.state@);
            assert(walk.stack =~= nodes(stack@.push(first)));
        }
        stack.push(first);
        loop
            invariant
                consistent(*self, stack@, memo@, closed, None),
                closed.finite(),
                closed.len() == expanded,
                walk.stack == nodes(stack@),
                walk.expanded == expanded,
                tracks(walk.memo, memo@),
                run(walk) == run(start(self@)),
            decreases pending(walk.stack),
        {
            let ghost waiting = stack@;
            proof {
                lemma_nodes_shaped(waiting, walk.memo, walk.expanded);
                lemma_tracks_len(walk.memo, memo@);
            }
            let cur = match stack.pop() {
                None => {
                    proof {
                        assert(stack@ =~= Seq::<GameTree>::empty());
                        lemma_exhausted(*self, memo@, closed, walk.memo);
                    }
                    return Exploration { found: None, expanded, visited: memo.len() };
                },
                Some(cur) => cur,
            };
            let ghost board = cur.state@;
            proof {
                lemma_pop(*self, waiting, memo@, closed);
                lemma_len_subset(closed, memo@);
                cur.state.lemma_view_well_shaped();
                assert(walk.stack.last() == cur@);
                assert(walk.stack.drop_last() =~= nodes(stack@));
            }
            if cur.state.is_solved() {
                proof {
                    lemma_len_subset(closed.insert(key(board)), memo@);
                }
                return Exploration { found: Some(cur), expanded, visited: memo.len() };
            }
            let actions = cur.state.valid_actions();
            let ghost popped = Walk {
                stack: walk.stack.drop_last(),
                memo: walk.memo,
                expanded: walk.expanded + 1,
            };
            let ghost mut tried: Walk = popped;
            proof {
                assert(actions@.take(0) =~= Seq::<Action>::empty());
            }
            let mut i: usize = 0;
            while i < actions.len()
                invariant
                    i <= actions.len(),
                    board == cur.state@,
                    well_shaped(board),
                    descends(*self, cur),
                    forall|a: Action| actions@.contains(a) <==> legal(board, a),
                    consistent(*self, stack@, memo@, closed, Some(key(board))),
                    forall|j: int|
                        0 <= j < i ==> memo@.contains(#[trigger] key(step(board, actions@[j]))),
                    tried == offer_all(popped, cur@, actions@.take(i as int)),
                    tried.stack == nodes(stack@),
                    tracks(tried.memo, memo@),
                decreases actions.len() - i,
            {
                let action = actions[i];
                proof {
                    assert(actions@.contains(actions@[i as int]));
                    lemma_step(board, action);
                    lemma_offer(tried, memo@, cur@, action);
                    assert(actions@.take(i + 1).drop_last() =~= actions@.take(i as int));
                }
                let new_state = cur.state.perform_action(action);
                let k = new_state.code();
                if !memo.contains(&k) {
                    let ghost met = memo@;
                    memo.insert(k);
                    let mut new_history = cur.history.clone();
                    new_history.push(action);
                    let child = GameTree::new(new_state, new_history);
                    proof {
                        lemma_child(*self, cur, child, action);
                        lemma_push(*self, stack@, met, closed, key(board), child);
                        assert(nodes(stack@.push(child)) =~= nodes(stack@).push(child@));
                    }
                    stack.push(child);
                }
                proof {
                    tried = offer(tried, cur@, action);
                }
                i += 1;
            }
            proof {
                assert forall|a: Action| legal(board, a) implies memo@.contains(
                    #[trigger] key(step(board, a)),
                ) by {
                    let j = actions@.index_of(a);
                    assert(memo@.contains(key(step(board, actions@[j]))));
                }
                lemma_close(*self, stack@, memo@, closed, board);
                closed = closed.insert(key(board));
                assert(memo@.len() == spec_hash_set_len(&memo));
                assert(actions@.take(actions@.len() as int) =~= actions@);
                assert(tried == expand(walk));
                lemma_expand(walk);
                walk = tried;
            }
            expanded += 1;
        }
    }
}

} // verus!
