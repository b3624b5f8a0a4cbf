//! The move graph: the boards that a search has reached and what it knows
//! of them.
//!
//! Every board that the search has reached has one node, whatever the moves
//! that led to it. A node holds the moves of its board; a move that has been
//! played once holds the number of the node of the board it leads to. The
//! total score of a node is the best score that the search knows how to
//! earn from its board onward; once the node is explored, no line of play
//! earns more.

use vstd::prelude::*;
use crate::board::{
    encoding, in_grid, is_clear, is_grid, lemma_population_bound, population, Board, Cell, Grid,
    AREA,
};
use crate::choice::Rng;
use crate::extract::{all_groups, explore_board, in_rank_order, is_extraction, position_lists};
use crate::group::{is_component, scan_index, Group};
use crate::memo::TranspositionTable;
use crate::region::{all_solid, cells_of, spot};
use crate::score::{score_of, turn_score, CLEAR_BONUS};
use crate::transition::{after_move, lemma_move_population};

verus! {

/// A move: a group of the board of a node, what removing it earns, and the
/// node that it leads to, once the move has been played.
#[derive(Debug)]
pub struct Move {
    /// The positions of the tiles that the move removes.
    pub pos: Vec<(u32, u32)>,
    /// The number of the node that the move leads to, once it is played.
    pub eval: Option<usize>,
    /// What the move earns.
    pub score: u32,
}

/// A node of the move graph: a board, its moves, and what the search knows
/// of it.
#[derive(Debug)]
pub struct Eval {
    /// The board that the node stands for.
    pub board: Board,
    /// The moves of the board, in rank order.
    pub moves: Vec<Move>,
    /// The best score that the search knows how to earn from the board.
    pub total_score: u32,
    /// Whether the search has looked into every line of play from the
    /// board.
    pub explored: bool,
}

/// The position lists of the moves.
pub open spec fn move_lists(moves: Seq<Move>) -> Seq<Seq<(u32, u32)>> {
    Seq::new(moves.len(), |m: int| moves[m].pos@)
}

/// The moves are the groups of the grid in rank order, each with its score.
pub open spec fn moves_of(g: Grid, moves: Seq<Move>) -> bool {
    &&& exists|groups: Seq<Group>| #[trigger]
        is_extraction(g, groups) && in_rank_order(groups) && position_lists(groups)
            == move_lists(moves)
    &&& forall|m: int|
        0 <= m < moves.len() ==> (#[trigger] moves[m]).score == score_of(
            moves[m].pos@.len() as int,
        )
}

/// What a board without moves is worth: the bonus if it is clear.
pub open spec fn terminal_value(g: Grid) -> int {
    if is_clear(g) {
        CLEAR_BONUS as int
    } else {
        0
    }
}

/// No play from a board with `pop` tiles earns more than this.
pub open spec fn score_cap(pop: int) -> int {
    pop * pop + CLEAR_BONUS
}

/// Every move takes tiles that are on the board, at least two and at most
/// all of them.
pub proof fn lemma_moves_fit(g: Grid, moves: Seq<Move>, m: int)
    requires
        is_grid(g),
        moves_of(g, moves),
        0 <= m < moves.len(),
    ensures
        is_component(g, moves[m].pos@),
        all_groups(g, move_lists(moves)),
        2 <= moves[m].pos@.len() <= population(g) <= AREA,
        is_grid(after_move(g, cells_of(moves[m].pos@))),
        population(after_move(g, cells_of(moves[m].pos@))) + moves[m].pos@.len() == population(g),
{
    let groups = choose|groups: Seq<Group>| #[trigger]
        is_extraction(g, groups) && in_rank_order(groups) && position_lists(groups) == move_lists(
            moves,
        );
    assert(move_lists(moves)[m] == moves[m].pos@);
    let pos = moves[m].pos@;
    assert(is_component(g, pos));
    assert(all_solid(g, pos));
    lemma_move_population(g, pos);
    lemma_population_bound(g);
}

impl Eval {
    /// The node describes its board: the moves are the groups of the
    /// board, a board without moves is explored and worth its terminal
    /// value, and the total score is one that a play can reach.
    pub open spec fn wf(&self) -> bool {
        &&& self.board.wf()
        &&& moves_of(self.board@, self.moves@)
        &&& self.moves@.len() == 0 ==> self.explored && self.total_score == terminal_value(
            self.board@,
        )
        &&& self.total_score <= score_cap(population(self.board@) as int)
    }

    /// The node of a board that the search has just reached: none of its
    /// moves has been played.
    pub fn new(board: Board) -> (e: Eval)
        requires
            board.wf(),
        ensures
            e.wf(),
            e.board@ == board@,
            forall|m: int| 0 <= m < e.moves@.len() ==> (#[trigger] e.moves@[m]).eval is None,
            e.explored == (e.moves@.len() == 0),
            e.total_score == (if e.moves@.len() == 0 {
                terminal_value(board@)
            } else {
                0
            }),
    {
        let groups = explore_board(&board);
        let mut moves: Vec<Move> = Vec::new();
        let mut i: usize = 0;
        while i < groups.len()
            invariant
                board.wf(),
                is_extraction(board@, groups@),
                i <= groups@.len(),
                moves@.len() == i,
                forall|m: int|
                    0 <= m < i ==> {
                        &&& (#[trigger] moves@[m]).pos@ == groups@[m].pos@
                        &&& moves@[m].eval is None
                        &&& moves@[m].score == score_of(moves@[m].pos@.len() as int)
                    },
            decreases groups@.len() - i,
        {
            let pos = copy_cells(&groups[i].pos);
            proof {
                let list = groups@[i as int].pos@;
                assert(groups@[i as int].legal_on(board@));
                assert(all_solid(board@, list));
                lemma_move_population(board@, list);
                lemma_population_bound(board@);
            }
            let score = turn_score(pos.len());
            moves.push(Move { pos, eval: None, score });
            i += 1;
        }
        let terminal = moves.len() == 0;
        let total_score: u32 = if terminal && board.is_clear() {
            CLEAR_BONUS
        } else {
            0
        };
        proof {
            assert(position_lists(groups@) =~= move_lists(moves@));
            assert(0 <= score_cap(population(board@) as int)) by (nonlinear_arith);
            assert(1000 <= score_cap(population(board@) as int)) by (nonlinear_arith);
        }
        Eval { board, moves, total_score, explored: terminal }
    }
}

/// A copy of a list of positions.
pub fn copy_cells(pos: &Vec<(u32, u32)>) -> (r: Vec<(u32, u32)>)
    ensures
        r@ == pos@,
{
    let mut r: Vec<(u32, u32)> = Vec::new();
    let mut i: usize = 0;
    while i < pos.len()
        invariant
            i <= pos@.len(),
            r@ == pos@.take(i as int),
        decreases pos@.len() - i,
    {
        r.push(pos[i]);
        proof {
            pos@.lemma_take_succ_push(i as int);
        }
        i += 1;
    }
    assert(pos@.take(i as int) =~= pos@);
    r
}

/// The larger of two numbers.
pub open spec fn larger(a: int, b: int) -> int {
    if a >= b {
        a
    } else {
        b
    }
}

/// Where move `m` of node `i` leads, if it has been played.
pub open spec fn link(nodes: Seq<Eval>, i: int, m: int) -> Option<usize> {
    nodes[i].moves@[m].eval
}

/// What move `m` of node `i` is known to be worth: its own score and the
/// total score of the node it leads to, if it has been played.
pub open spec fn value(nodes: Seq<Eval>, i: int, m: int) -> int {
    nodes[i].moves@[m].score + (match link(nodes, i, m) {
        Some(c) => nodes[c as int].total_score as int,
        None => 0,
    })
}

/// The most that one of the first `n` moves of node `i` is known to be
/// worth.
pub open spec fn best_upto(nodes: Seq<Eval>, i: int, n: int) -> int
    decreases n,
{
    if n <= 0 {
        0
    } else {
        larger(best_upto(nodes, i, n - 1), value(nodes, i, n - 1))
    }
}

/// The most that a move of node `i` is known to be worth.
pub open spec fn best(nodes: Seq<Eval>, i: int) -> int {
    best_upto(nodes, i, nodes[i].moves@.len() as int)
}

/// Move `m` of node `i` has been played and leads to an explored node.
pub open spec fn resolved(nodes: Seq<Eval>, i: int, m: int) -> bool {
    match link(nodes, i, m) {
        Some(c) => nodes[c as int].explored,
        None => false,
    }
}

/// Every move of node `i` is resolved.
pub open spec fn all_resolved(nodes: Seq<Eval>, i: int) -> bool {
    forall|m: int| 0 <= m < nodes[i].moves@.len() ==> #[trigger] resolved(nodes, i, m)
}

/// A played move leads to the node of the board that the move makes.
pub open spec fn link_ok(nodes: Seq<Eval>, i: int, m: int) -> bool {
    link(nodes, i, m) matches Some(c) ==> {
        &&& c < nodes.len()
        &&& nodes[c as int].board@ == after_move(nodes[i].board@, cells_of(nodes[i].moves@[m].pos@))
    }
}

/// Node `i` is in order.
pub open spec fn node_ok(nodes: Seq<Eval>, memo: Map<Seq<u8>, usize>, i: int) -> bool {
    let e = nodes[i];
    &&& e.wf()
    &&& forall|m: int| 0 <= m < e.moves@.len() ==> #[trigger] link_ok(nodes, i, m)
    &&& memo.contains_key(encoding(e.board@))
    &&& memo[encoding(e.board@)] == i
    &&& e.moves@.len() > 0 ==> e.total_score <= best(nodes, i)
    &&& e.explored ==> all_resolved(nodes, i)
    &&& e.explored && e.moves@.len() > 0 ==> e.total_score == best(nodes, i)
}

/// The nodes and the table are in order: every node describes its board,
/// every played move leads to the node of the board it makes, the table
/// names for every board the one node that stands for it, no total score is
/// more than the moves make it, and an explored node has only explored
/// nodes below it and the total score that its moves make.
pub open spec fn graph_ok(nodes: Seq<Eval>, memo: Map<Seq<u8>, usize>) -> bool {
    &&& nodes.len() >= 1
    &&& forall|i: int| 0 <= i < nodes.len() ==> #[trigger] node_ok(nodes, memo, i)
    &&& forall|k: Seq<u8>| #[trigger]
        memo.contains_key(k) ==> memo[k] < nodes.len() && encoding(nodes[memo[k] as int].board@)
            == k
}

/// Node `b` is a later state of node `a`: the same board and moves, every
/// move that was played still leads to the same node, the total score has
/// not fallen, and what was explored is explored and worth the same.
pub open spec fn later_state(a: Eval, b: Eval) -> bool {
    &&& b.board@ == a.board@
    &&& b.moves@.len() == a.moves@.len()
    &&& forall|m: int|
        0 <= m < a.moves@.len() ==> {
            &&& (#[trigger] b.moves@[m]).pos@ == a.moves@[m].pos@
            &&& b.moves@[m].score == a.moves@[m].score
            &&& a.moves@[m].eval is Some ==> b.moves@[m].eval == a.moves@[m].eval
        }
    &&& a.total_score <= b.total_score
    &&& a.explored ==> b.explored && b.total_score == a.total_score
}

/// `next` holds the nodes of `prev`, each in a later state.
pub open spec fn later_nodes(prev: Seq<Eval>, next: Seq<Eval>) -> bool {
    &&& prev.len() <= next.len()
    &&& forall|i: int|
        #![trigger next[i]]
        #![trigger prev[i]]
        0 <= i < prev.len() ==> later_state(prev[i], next[i])
}

/// Move `m` of node `i` has been played between `prev` and `next`.
pub open spec fn newly_played(prev: Seq<Eval>, next: Seq<Eval>, i: int, m: int) -> bool {
    &&& 0 <= i < prev.len()
    &&& 0 <= m < prev[i].moves@.len()
    &&& link(prev, i, m) is None
    &&& link(next, i, m) is Some
}

/// Node `i` has become explored between `prev` and `next`.
pub open spec fn newly_explored(prev: Seq<Eval>, next: Seq<Eval>, i: int) -> bool {
    &&& 0 <= i < prev.len()
    &&& !prev[i].explored
    &&& next[i].explored
}

/// The search has gone forward between `prev` and `next`: a move has been
/// played for the first time, or a node has become explored.
pub open spec fn advanced(prev: Seq<Eval>, next: Seq<Eval>) -> bool {
    ||| exists|i: int, m: int| #[trigger] newly_played(prev, next, i, m)
    ||| exists|i: int| #[trigger] newly_explored(prev, next, i)
}

/// The move graph of a search.
pub struct MoveGraph {
    /// The nodes; node `0` is the root.
    pub nodes: Vec<Eval>,
    /// Which node stands for which board.
    pub memo: TranspositionTable,
    /// Where the draws come from.
    pub rng: Rng,
}

impl MoveGraph {
    /// The graph is in order.
    pub open spec fn wf(&self) -> bool {
        &&& self.memo.wf()
        &&& graph_ok(self.nodes@, self.memo@)
    }

    /// The graph is a later state of `prev`: it has the nodes of `prev`,
    /// each in a later state, and names the same node for every board that
    /// `prev` knew.
    pub open spec fn extends(&self, prev: MoveGraph) -> bool {
        &&& later_nodes(prev.nodes@, self.nodes@)
        &&& prev.memo@.submap_of(self.memo@)
    }
}

// ---------------------------------------------------------------------------
// Facts about the best value
// ---------------------------------------------------------------------------

/// The best value is none of a move's values, or more, and not negative.
pub proof fn lemma_best_bounds(nodes: Seq<Eval>, i: int, n: int, m: int)
    requires
        0 <= m < n,
    ensures
        value(nodes, i, m) <= best_upto(nodes, i, n),
        0 <= best_upto(nodes, i, n),
    decreases n,
{
    if n > 0 {
        if m < n - 1 {
            lemma_best_bounds(nodes, i, n - 1, m);
        } else if n - 1 > 0 {
            lemma_best_bounds(nodes, i, n - 1, 0);
        }
    }
}

/// The best value is the value of one of the moves.
pub proof fn lemma_best_is_reached(nodes: Seq<Eval>, i: int, n: int) -> (m: int)
    requires
        n > 0,
        forall|k: int| 0 <= k < n ==> 0 <= #[trigger] value(nodes, i, k),
    ensures
        0 <= m < n,
        value(nodes, i, m) == best_upto(nodes, i, n),
    decreases n,
{
    if n == 1 {
        assert(best_upto(nodes, i, 0) == 0);
        assert(0 <= value(nodes, i, 0));
        0
    } else {
        let k = lemma_best_is_reached(nodes, i, n - 1);
        if best_upto(nodes, i, n - 1) >= value(nodes, i, n - 1) {
            k
        } else {
            n - 1
        }
    }
}

/// Where no move is worth less than before, the best value is no less.
pub proof fn lemma_best_rises(a: Seq<Eval>, b: Seq<Eval>, i: int, n: int)
    requires
        forall|m: int| 0 <= m < n ==> value(a, i, m) <= #[trigger] value(b, i, m),
    ensures
        best_upto(a, i, n) <= best_upto(b, i, n),
    decreases n,
{
    if n > 0 {
        lemma_best_rises(a, b, i, n - 1);
        assert(value(a, i, n - 1) <= value(b, i, n - 1));
    }
}

/// Where every move is worth what it was, the best value is what it was.
pub proof fn lemma_best_stays(a: Seq<Eval>, b: Seq<Eval>, i: int, n: int)
    requires
        forall|m: int| 0 <= m < n ==> value(a, i, m) == #[trigger] value(b, i, m),
    ensures
        best_upto(a, i, n) == best_upto(b, i, n),
    decreases n,
{
    if n > 0 {
        lemma_best_stays(a, b, i, n - 1);
        assert(value(a, i, n - 1) == value(b, i, n - 1));
    }
}

/// Where no move is worth more than a limit, the best value is not.
pub proof fn lemma_best_capped(nodes: Seq<Eval>, i: int, n: int, cap: int)
    requires
        0 <= cap,
        forall|m: int| 0 <= m < n ==> #[trigger] value(nodes, i, m) <= cap,
    ensures
        best_upto(nodes, i, n) <= cap,
    decreases n,
{
    if n > 0 {
        lemma_best_capped(nodes, i, n - 1, cap);
        assert(value(nodes, i, n - 1) <= cap);
    }
}

/// In a graph that is in order, a played move leads to a board with fewer
/// tiles, and no move is worth more than the cap of its node's board.
pub proof fn lemma_move_in_order(nodes: Seq<Eval>, memo: Map<Seq<u8>, usize>, i: int, m: int)
    requires
        graph_ok(nodes, memo),
        0 <= i < nodes.len(),
        0 <= m < nodes[i].moves@.len(),
    ensures
        link(nodes, i, m) matches Some(c) ==> c < nodes.len() && c != i && population(
            nodes[c as int].board@,
        ) < population(nodes[i].board@),
        0 <= value(nodes, i, m) <= score_cap(population(nodes[i].board@) as int),
        score_cap(population(nodes[i].board@) as int) <= AREA * AREA + CLEAR_BONUS,
{
    assert(node_ok(nodes, memo, i));
    assert(link_ok(nodes, i, m));
    let e = nodes[i];
    let g = e.board@;
    lemma_moves_fit(g, e.moves@, m);
    let n = e.moves@[m].pos@.len() as int;
    let p = population(g) as int;
    assert(e.moves@[m].score == score_of(n));
    assert(0 <= score_of(n) <= n * n) by (nonlinear_arith)
        requires
            2 <= n,
    ;
    assert(n * n <= p * p) by (nonlinear_arith)
        requires
            0 <= n <= p,
    ;
    assert(p * p <= AREA * AREA) by (nonlinear_arith)
        requires
            0 <= p <= AREA,
    ;
    match link(nodes, i, m) {
        Some(c) => {
            assert(node_ok(nodes, memo, c as int));
            let q = population(nodes[c as int].board@) as int;
            assert(q + n == p);
            assert(score_of(n) + q * q <= p * p) by (nonlinear_arith)
                requires
                    2 <= n,
                    0 <= q,
                    q + n == p,
            ;
        },
        None => {},
    }
}

/// A sequence of different numbers from `0` up to `n`, `n` left out, has
/// at most `n` members.
pub proof fn lemma_distinct_count(s: Seq<int>, n: int)
    requires
        0 <= n,
        forall|i: int| 0 <= i < s.len() ==> 0 <= #[trigger] s[i] < n,
        forall|i: int, j: int| 0 <= i < j < s.len() ==> #[trigger] s[i] != #[trigger] s[j],
    ensures
        s.len() <= n,
    decreases n,
{
    if s.len() > 0 {
        assert(0 <= s[0] < n);
        if exists|k: int| 0 <= k < s.len() && #[trigger] s[k] == n - 1 {
            let k = choose|k: int| 0 <= k < s.len() && #[trigger] s[k] == n - 1;
            let t = s.remove(k);
            assert forall|i: int| 0 <= i < t.len() implies 0 <= #[trigger] t[i] < n - 1 by {
                if i < k {
                    assert(t[i] == s[i]);
                    assert(s[i] != s[k]);
                } else {
                    assert(t[i] == s[i + 1]);
                    assert(s[k] != s[i + 1]);
                }
            }
            assert forall|i: int, j: int| 0 <= i < j < t.len() implies #[trigger] t[i]
                != #[trigger] t[j] by {
                let si = if i < k {
                    i
                } else {
                    i + 1
                };
                let sj = if j < k {
                    j
                } else {
                    j + 1
                };
                assert(t[i] == s[si] && t[j] == s[sj]);
                assert(s[si] != s[sj]);
            }
            lemma_distinct_count(t, n - 1);
        } else {
            assert forall|i: int| 0 <= i < s.len() implies 0 <= #[trigger] s[i] < n - 1 by {
                assert(0 <= s[i] < n);
                assert(s[i] != n - 1);
            }
            lemma_distinct_count(s, n - 1);
        }
    }
}

/// A board has no more moves than cells.
pub proof fn lemma_move_count(g: Grid, moves: Seq<Move>)
    requires
        is_grid(g),
        moves_of(g, moves),
    ensures
        moves.len() <= AREA,
{
    if moves.len() > 0 {
        lemma_moves_fit(g, moves, 0);
        let lists = move_lists(moves);
        let firsts = Seq::new(moves.len(), |m: int| scan_index(spot(lists[m][0])));
        assert forall|i: int| 0 <= i < firsts.len() implies 0 <= #[trigger] firsts[i] < AREA by {
            assert(is_component(g, lists[i]));
            assert(in_grid(spot(lists[i][0])));
        }
        assert forall|i: int, j: int| 0 <= i < j < firsts.len() implies #[trigger] firsts[i]
            != #[trigger] firsts[j] by {
            assert(is_component(g, lists[i]));
            assert(is_component(g, lists[j]));
            let p = spot(lists[i][0]);
            let q = spot(lists[j][0]);
            assert(in_grid(p) && in_grid(q));
            assert(cells_of(lists[i]).contains(p));
            assert(cells_of(lists[j]).contains(q));
            if firsts[i] == firsts[j] {
                assert(p.0 == q.0 && p.1 == q.1);
                assert(p == q);
            }
        }
        lemma_distinct_count(firsts, AREA as int);
    }
}

/// A node whose board has no move is explored, and it is worth the bonus
/// if the board is clear and nothing if tiles are left. A clear board has
/// no move.
pub proof fn lemma_terminal_node(nodes: Seq<Eval>, memo: Map<Seq<u8>, usize>, i: int)
    requires
        graph_ok(nodes, memo),
        0 <= i < nodes.len(),
    ensures
        is_clear(nodes[i].board@) ==> nodes[i].moves@.len() == 0,
        nodes[i].moves@.len() == 0 ==> nodes[i].explored,
        nodes[i].moves@.len() == 0 && is_clear(nodes[i].board@) ==> nodes[i].total_score
            == CLEAR_BONUS,
        nodes[i].moves@.len() == 0 && !is_clear(nodes[i].board@) ==> nodes[i].total_score == 0,
{
    assert(node_ok(nodes, memo, i));
    let g = nodes[i].board@;
    if nodes[i].moves@.len() > 0 {
        lemma_moves_fit(g, nodes[i].moves@, 0);
        let p = spot(nodes[i].moves@[0].pos@[0]);
        assert(in_grid(p));
        assert(g[p.0][p.1] != Cell::Empty);
    }
}

/// No two nodes hold the same board.
pub proof fn lemma_one_node_per_board(nodes: Seq<Eval>, memo: Map<Seq<u8>, usize>, i: int, j: int)
    requires
        graph_ok(nodes, memo),
        0 <= i < nodes.len(),
        0 <= j < nodes.len(),
        nodes[i].board@ == nodes[j].board@,
    ensures
        i == j,
{
    assert(node_ok(nodes, memo, i));
    assert(node_ok(nodes, memo, j));
}

/// Played moves that make the same board lead to the same node.
pub proof fn lemma_moves_meet(
    nodes: Seq<Eval>,
    memo: Map<Seq<u8>, usize>,
    i: int,
    m: int,
    j: int,
    k: int,
)
    requires
        graph_ok(nodes, memo),
        0 <= i < nodes.len(),
        0 <= m < nodes[i].moves@.len(),
        0 <= j < nodes.len(),
        0 <= k < nodes[j].moves@.len(),
        link(nodes, i, m) is Some,
        link(nodes, j, k) is Some,
        after_move(nodes[i].board@, cells_of(nodes[i].moves@[m].pos@)) == after_move(
            nodes[j].board@,
            cells_of(nodes[j].moves@[k].pos@),
        ),
    ensures
        link(nodes, i, m) == link(nodes, j, k),
{
    assert(node_ok(nodes, memo, i));
    assert(node_ok(nodes, memo, j));
    assert(link_ok(nodes, i, m));
    assert(link_ok(nodes, j, k));
    let c = link(nodes, i, m)->0 as int;
    let d = link(nodes, j, k)->0 as int;
    lemma_one_node_per_board(nodes, memo, c, d);
}

/// The node at which a sequence of moves arrives from node `start`, each
/// move given by its place among the moves of the node in which it is made;
/// none if one of the moves has not been played.
pub open spec fn arrival(nodes: Seq<Eval>, start: int, path: Seq<int>) -> Option<int>
    decreases path.len(),
{
    if path.len() == 0 {
        Some(start)
    } else if 0 <= start < nodes.len() && 0 <= path[0] < nodes[start].moves@.len() {
        match link(nodes, start, path[0]) {
            Some(c) => arrival(nodes, c as int, path.skip(1)),
            None => None,
        }
    } else {
        None
    }
}

/// A sequence of played moves arrives at a node of the graph.
pub proof fn lemma_arrival_in_graph(
    nodes: Seq<Eval>,
    memo: Map<Seq<u8>, usize>,
    start: int,
    path: Seq<int>,
)
    requires
        graph_ok(nodes, memo),
        0 <= start < nodes.len(),
    ensures
        arrival(nodes, start, path) matches Some(a) ==> 0 <= a < nodes.len(),
    decreases path.len(),
{
    if path.len() > 0 && 0 <= path[0] < nodes[start].moves@.len() {
        assert(node_ok(nodes, memo, start));
        assert(link_ok(nodes, start, path[0]));
        match link(nodes, start, path[0]) {
            Some(c) => {
                lemma_arrival_in_graph(nodes, memo, c as int, path.skip(1));
            },
            None => {},
        }
    }
}

/// Two sequences of moves that arrive at the same board arrive at the same
/// node.
pub proof fn lemma_lines_meet(
    nodes: Seq<Eval>,
    memo: Map<Seq<u8>, usize>,
    start: int,
    p: Seq<int>,
    q: Seq<int>,
)
    requires
        graph_ok(nodes, memo),
        0 <= start < nodes.len(),
        arrival(nodes, start, p) is Some,
        arrival(nodes, start, q) is Some,
        nodes[arrival(nodes, start, p)->0].board@ == nodes[arrival(nodes, start, q)->0].board@,
    ensures
        arrival(nodes, start, p) == arrival(nodes, start, q),
{
    lemma_arrival_in_graph(nodes, memo, start, p);
    lemma_arrival_in_graph(nodes, memo, start, q);
    lemma_one_node_per_board(
        nodes,
        memo,
        arrival(nodes, start, p)->0,
        arrival(nodes, start, q)->0,
    );
}

} // verus!
