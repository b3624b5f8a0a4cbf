//! Growing the move graph: one step of the search.

use vstd::prelude::*;
use crate::board::{encoding, lemma_encoding_injective, population, Board, Grid, AREA};
use crate::choice::{
    drawn, lemma_pick_has_weight, lemma_pick_reaches, lemma_pick_unique, lemma_sums_rise, picked,
    stepped, sum_all, sum_upto, weighted_pick, Rng,
};
use crate::memo::TranspositionTable;
use crate::region::cells_of;
use crate::score::{score_of, CLEAR_BONUS};
use crate::search::{
    advanced, all_resolved, best, best_upto, graph_ok, later_nodes, later_state,
    lemma_best_bounds, lemma_best_capped, lemma_best_rises, lemma_best_stays, lemma_move_count,
    lemma_move_in_order, lemma_moves_fit, link, link_ok, move_lists, moves_of, newly_explored,
    newly_played, node_ok, resolved, score_cap, terminal_value, value, Eval, Move, MoveGraph,
};
use crate::transition::{after_move, transition};

verus! {

/// The nodes `b` are the nodes `a` but for node `id`.
pub open spec fn same_but(a: Seq<Eval>, b: Seq<Eval>, id: int) -> bool {
    &&& b.len() == a.len()
    &&& forall|j: int| 0 <= j < a.len() && j != id ==> #[trigger] b[j] == a[j]
}

/// Node `id` has been given the total score and the explored mark that its
/// moves make: the graph stays in order.
pub proof fn lemma_reassessed(a: Seq<Eval>, memo: Map<Seq<u8>, usize>, b: Seq<Eval>, id: int)
    requires
        graph_ok(a, memo),
        0 <= id < a.len(),
        same_but(a, b, id),
        b[id].board == a[id].board,
        b[id].moves == a[id].moves,
        b[id].explored == all_resolved(a, id),
        b[id].total_score == (if a[id].moves@.len() > 0 {
            best(a, id)
        } else {
            a[id].total_score as int
        }),
    ensures
        graph_ok(b, memo),
        later_nodes(a, b),
        best(b, id) == best(a, id),
        all_resolved(b, id) == all_resolved(a, id),
{
    let n = a[id].moves@.len() as int;
    assert(node_ok(a, memo, id));
    // what the moves of `id` lead to is not `id`
    assert forall|m: int|
        #![trigger value(a, id, m)]
        #![trigger value(b, id, m)]
        #![trigger resolved(a, id, m)]
        #![trigger resolved(b, id, m)]
        0 <= m < n implies {
        &&& value(a, id, m) == value(b, id, m)
        &&& resolved(a, id, m) == resolved(b, id, m)
        &&& value(a, id, m) <= score_cap(population(a[id].board@) as int)
    } by {
        lemma_move_in_order(a, memo, id, m);
    }
    lemma_best_stays(a, b, id, n);
    assert(all_resolved(b, id) == all_resolved(a, id)) by {
        if all_resolved(a, id) {
            assert forall|m: int| 0 <= m < n implies #[trigger] resolved(b, id, m) by {
                assert(resolved(a, id, m));
            }
        }
        if all_resolved(b, id) {
            assert forall|m: int| 0 <= m < n implies #[trigger] resolved(a, id, m) by {
                assert(resolved(b, id, m));
            }
        }
    }
    if n > 0 {
        assert(0 <= score_cap(population(a[id].board@) as int)) by (nonlinear_arith);
        lemma_best_capped(a, id, n, score_cap(population(a[id].board@) as int));
    }
    assert(later_state(a[id], b[id]));
    assert forall|i: int|
        #![trigger b[i]]
        #![trigger a[i]]
        0 <= i < a.len() implies later_state(a[i], b[i]) by {
        if i != id {
            assert(b[i] == a[i]);
        }
    }
    assert forall|j: int| 0 <= j < b.len() implies #[trigger] node_ok(b, memo, j) by {
        assert(node_ok(a, memo, j));
        let k = a[j].moves@.len() as int;
        assert(b[j].moves == a[j].moves);
        assert(b[j].board == a[j].board);
        assert forall|m: int| 0 <= m < k implies #[trigger] link_ok(b, j, m) by {
            assert(link_ok(a, j, m));
            lemma_move_in_order(a, memo, j, m);
        }
        if j != id {
            assert(b[j] == a[j]);
            assert forall|m: int| 0 <= m < k implies value(a, j, m) <= #[trigger] value(
                b,
                j,
                m,
            ) by {
                lemma_move_in_order(a, memo, j, m);
            }
            lemma_best_rises(a, b, j, k);
            if a[j].explored {
                assert forall|m: int|
                    #![trigger value(b, j, m)]
                    #![trigger resolved(b, j, m)]
                    0 <= m < k implies value(a, j, m) == value(b, j, m) && resolved(b, j, m) by {
                    lemma_move_in_order(a, memo, j, m);
                    assert(resolved(a, j, m));
                }
                lemma_best_stays(a, b, j, k);
                assert(all_resolved(b, j));
            }
        }
    }
    assert forall|q: Seq<u8>| #[trigger] memo.contains_key(q) implies memo[q] < b.len()
        && encoding(b[memo[q] as int].board@) == q by {
        let c = memo[q] as int;
        assert(b[c].board == a[c].board);
    }
}

/// Move `m` of node `id`, which had not been played, has been given the
/// node of the board it makes: the graph stays in order.
pub proof fn lemma_attached(
    a: Seq<Eval>,
    memo: Map<Seq<u8>, usize>,
    b: Seq<Eval>,
    id: int,
    m: int,
    c: usize,
)
    requires
        graph_ok(a, memo),
        0 <= id < a.len(),
        0 <= m < a[id].moves@.len(),
        link(a, id, m) is None,
        c < a.len(),
        a[c as int].board@ == after_move(a[id].board@, cells_of(a[id].moves@[m].pos@)),
        same_but(a, b, id),
        b[id].board == a[id].board,
        b[id].total_score == a[id].total_score,
        b[id].explored == a[id].explored,
        b[id].moves@.len() == a[id].moves@.len(),
        forall|k: int|
            0 <= k < a[id].moves@.len() && k != m ==> #[trigger] b[id].moves@[k] == a[id].moves@[k],
        b[id].moves@[m].pos == a[id].moves@[m].pos,
        b[id].moves@[m].score == a[id].moves@[m].score,
        b[id].moves@[m].eval == Some(c),
    ensures
        graph_ok(b, memo),
        later_nodes(a, b),
        newly_played(a, b, id, m),
{
    let n = a[id].moves@.len() as int;
    assert(node_ok(a, memo, id));
    lemma_moves_fit(a[id].board@, a[id].moves@, m);
    assert(c != id);
    assert(!a[id].explored) by {
        if a[id].explored {
            assert(resolved(a, id, m));
        }
    }
    assert(move_lists(b[id].moves@) =~= move_lists(a[id].moves@)) by {
        assert forall|k: int| 0 <= k < n implies #[trigger] move_lists(b[id].moves@)[k]
            == move_lists(a[id].moves@)[k] by {
            if k != m {
                assert(b[id].moves@[k] == a[id].moves@[k]);
            }
        }
    }
    assert(moves_of(b[id].board@, b[id].moves@)) by {
        assert forall|k: int| 0 <= k < n implies (#[trigger] b[id].moves@[k]).score
            == score_of(b[id].moves@[k].pos@.len() as int) by {
            if k != m {
                assert(b[id].moves@[k] == a[id].moves@[k]);
            }
        }
    }
    assert(later_state(a[id], b[id])) by {
        assert forall|k: int| 0 <= k < n implies {
            &&& (#[trigger] b[id].moves@[k]).pos@ == a[id].moves@[k].pos@
            &&& b[id].moves@[k].score == a[id].moves@[k].score
            &&& a[id].moves@[k].eval is Some ==> b[id].moves@[k].eval == a[id].moves@[k].eval
        } by {
            if k != m {
                assert(b[id].moves@[k] == a[id].moves@[k]);
            }
        }
    }
    assert forall|i: int|
        #![trigger b[i]]
        #![trigger a[i]]
        0 <= i < a.len() implies later_state(a[i], b[i]) by {
        if i != id {
            assert(b[i] == a[i]);
        }
    }
    assert forall|j: int| 0 <= j < b.len() implies #[trigger] node_ok(b, memo, j) by {
        assert(node_ok(a, memo, j));
        let k = a[j].moves@.len() as int;
        if j != id {
            assert(b[j] == a[j]);
            assert forall|q: int|
                #![trigger value(b, j, q)]
                #![trigger resolved(b, j, q)]
                #![trigger link_ok(b, j, q)]
                0 <= q < k implies value(a, j, q) == value(b, j, q) && resolved(a, j, q)
                == resolved(b, j, q) && link_ok(b, j, q) by {
                assert(link_ok(a, j, q));
                lemma_move_in_order(a, memo, j, q);
                match link(a, j, q) {
                    Some(d) => {
                        assert(b[d as int].total_score == a[d as int].total_score);
                        assert(b[d as int].explored == a[d as int].explored);
                        assert(b[d as int].board == a[d as int].board);
                    },
                    None => {},
                }
            }
            lemma_best_stays(a, b, j, k);
            if a[j].explored {
                assert(all_resolved(b, j)) by {
                    assert forall|q: int| 0 <= q < k implies #[trigger] resolved(b, j, q) by {
                        assert(resolved(a, j, q));
                    }
                }
            }
        } else {
            assert forall|q: int|
                #![trigger value(b, j, q)]
                #![trigger link_ok(b, j, q)]
                0 <= q < k implies value(a, j, q) <= value(b, j, q) && link_ok(b, j, q) by {
                assert(link_ok(a, j, q));
                lemma_move_in_order(a, memo, j, q);
                if q != m {
                    assert(b[id].moves@[q] == a[id].moves@[q]);
                    match link(a, j, q) {
                        Some(d) => {
                            assert(b[d as int] == a[d as int]);
                        },
                        None => {},
                    }
                } else {
                    assert(b[c as int] == a[c as int]);
                }
            }
            lemma_best_rises(a, b, j, k);
        }
    }
    assert forall|q: Seq<u8>| #[trigger] memo.contains_key(q) implies memo[q] < b.len()
        && encoding(b[memo[q] as int].board@) == q by {
        let d = memo[q] as int;
        assert(b[d].board == a[d].board);
    }
}

/// A node for a board that the graph did not hold has been added, and the
/// table names it: the graph stays in order.
pub proof fn lemma_node_added(
    a: Seq<Eval>,
    memo: Map<Seq<u8>, usize>,
    e: Eval,
    b: Seq<Eval>,
    grown: Map<Seq<u8>, usize>,
)
    requires
        graph_ok(a, memo),
        b == a.push(e),
        e.wf(),
        forall|m: int| 0 <= m < e.moves@.len() ==> (#[trigger] e.moves@[m]).eval is None,
        e.explored == (e.moves@.len() == 0),
        e.moves@.len() > 0 ==> e.total_score == 0,
        !memo.contains_key(encoding(e.board@)),
        a.len() <= usize::MAX,
        grown == memo.insert(encoding(e.board@), a.len() as usize),
    ensures
        graph_ok(b, grown),
        later_nodes(a, b),
{
    let c = a.len() as int;
    assert forall|i: int|
        #![trigger b[i]]
        #![trigger a[i]]
        0 <= i < a.len() implies later_state(a[i], b[i]) by {
        assert(b[i] == a[i]);
    }
    assert forall|j: int| 0 <= j < b.len() implies #[trigger] node_ok(b, grown, j) by {
        if j < c {
            assert(node_ok(a, memo, j));
            assert(b[j] == a[j]);
            let k = a[j].moves@.len() as int;
            assert forall|q: int|
                #![trigger value(b, j, q)]
                #![trigger resolved(b, j, q)]
                #![trigger link_ok(b, j, q)]
                0 <= q < k implies value(a, j, q) == value(b, j, q) && resolved(a, j, q)
                == resolved(b, j, q) && link_ok(b, j, q) by {
                assert(link_ok(a, j, q));
                lemma_move_in_order(a, memo, j, q);
                match link(a, j, q) {
                    Some(d) => {
                        assert(b[d as int] == a[d as int]);
                    },
                    None => {},
                }
            }
            lemma_best_stays(a, b, j, k);
            if a[j].explored {
                assert(all_resolved(b, j)) by {
                    assert forall|q: int| 0 <= q < k implies #[trigger] resolved(b, j, q) by {
                        assert(resolved(a, j, q));
                    }
                }
            }
        } else {
            assert(b[j] == e);
            let k = e.moves@.len() as int;
            assert forall|q: int| 0 <= q < k implies #[trigger] link_ok(b, j, q) by {
                assert(e.moves@[q].eval is None);
            }
            if k > 0 {
                lemma_best_bounds(b, j, k, 0);
            }
        }
    }
    assert forall|q: Seq<u8>| #[trigger] grown.contains_key(q) implies grown[q] < b.len()
        && encoding(b[grown[q] as int].board@) == q by {
        if q != encoding(e.board@) {
            assert(memo.contains_key(q));
            let d = memo[q] as int;
            assert(b[d] == a[d]);
        }
    }
}

/// Later states follow one another.
pub proof fn lemma_later_nodes_chain(a: Seq<Eval>, b: Seq<Eval>, c: Seq<Eval>)
    requires
        later_nodes(a, b),
        later_nodes(b, c),
    ensures
        later_nodes(a, c),
{
    assert forall|i: int|
        #![trigger c[i]]
        #![trigger a[i]]
        0 <= i < a.len() implies later_state(a[i], c[i]) by {
        assert(later_state(a[i], b[i]));
        assert(later_state(b[i], c[i]));
        assert forall|m: int| 0 <= m < a[i].moves@.len() implies {
            &&& (#[trigger] c[i].moves@[m]).pos@ == a[i].moves@[m].pos@
            &&& c[i].moves@[m].score == a[i].moves@[m].score
            &&& a[i].moves@[m].eval is Some ==> c[i].moves@[m].eval == a[i].moves@[m].eval
        } by {
            assert(b[i].moves@[m].pos@ == a[i].moves@[m].pos@);
        }
    }
}

/// Later states of a graph follow one another. So the total score of a
/// node never falls from one step of a search to a later one.
pub proof fn lemma_extends_chain(a: MoveGraph, b: MoveGraph, c: MoveGraph)
    requires
        b.extends(a),
        c.extends(b),
    ensures
        c.extends(a),
        forall|i: int|
            0 <= i < a.nodes@.len() ==> (#[trigger] a.nodes@[i]).total_score <= c.nodes@[i].total_score,
{
    lemma_later_nodes_chain(a.nodes@, b.nodes@, c.nodes@);
    vstd::map_lib::lemma_submap_of_trans(a.memo@, b.memo@, c.memo@);
    assert forall|i: int| 0 <= i < a.nodes@.len() implies (#[trigger] a.nodes@[i]).total_score
        <= c.nodes@[i].total_score by {
        assert(later_state(a.nodes@[i], c.nodes@[i]));
    }
}

/// What has gone forward stays so in every later state.
pub proof fn lemma_advanced_stays(a: Seq<Eval>, b: Seq<Eval>, c: Seq<Eval>)
    requires
        later_nodes(a, b),
        advanced(a, b),
        later_nodes(b, c),
    ensures
        advanced(a, c),
{
    if exists|i: int, m: int| #[trigger] newly_played(a, b, i, m) {
        let (i, m) = choose|i: int, m: int| #[trigger] newly_played(a, b, i, m);
        assert(later_state(a[i], b[i]));
        assert(later_state(b[i], c[i]));
        assert(b[i].moves@[m].eval is Some);
        assert(c[i].moves@[m].eval == b[i].moves@[m].eval);
        assert(newly_played(a, c, i, m));
    } else {
        let i = choose|i: int| #[trigger] newly_explored(a, b, i);
        assert(later_state(b[i], c[i]));
        assert(newly_explored(a, c, i));
    }
}

/// The weights with which the moves of node `i` are drawn: a move that is
/// resolved has none, every other move its score and one.
pub open spec fn weights_of(nodes: Seq<Eval>, i: int) -> Seq<u64> {
    Seq::new(
        nodes[i].moves@.len(),
        |m: int|
            if resolved(nodes, i, m) {
                0u64
            } else {
                (nodes[i].moves@[m].score + 1) as u64
            },
    )
}

/// A place with weight makes the sum of all weights positive.
pub proof fn lemma_weight_counts(w: Seq<u64>, k: int)
    requires
        0 <= k < w.len(),
        w[k] > 0,
    ensures
        sum_all(w) > 0,
{
    lemma_sums_rise(w, 0, k);
    lemma_sums_rise(w, k + 1, w.len() as int);
}

/// The sum of the first `n` weights is at most `n` times a limit that no
/// weight passes.
pub proof fn lemma_sum_capped(w: Seq<u64>, n: int, cap: int)
    requires
        0 <= n <= w.len(),
        forall|k: int| 0 <= k < n ==> #[trigger] w[k] <= cap,
    ensures
        sum_upto(w, n) <= n * cap,
    decreases n,
{
    if n > 0 {
        lemma_sum_capped(w, n - 1, cap);
        assert((n - 1) * cap + cap == n * cap) by (nonlinear_arith);
        assert(w[n - 1] <= cap);
    } else {
        assert(n * cap == 0) by (nonlinear_arith)
            requires
                n == 0,
        ;
    }
}

/// Every move that is not resolved can be chosen: some draw picks it.
pub proof fn lemma_open_move_can_be_chosen(
    nodes: Seq<Eval>,
    memo: Map<Seq<u8>, usize>,
    i: int,
    m: int,
) -> (draw: u64)
    requires
        graph_ok(nodes, memo),
        0 <= i < nodes.len(),
        0 <= m < nodes[i].moves@.len(),
        !resolved(nodes, i, m),
    ensures
        picked(weights_of(nodes, i), draw, m),
{
    let w = weights_of(nodes, i);
    let n = w.len() as int;
    let cap = AREA * AREA + CLEAR_BONUS + 1;
    assert(node_ok(nodes, memo, i));
    lemma_move_count(nodes[i].board@, nodes[i].moves@);
    assert forall|k: int| 0 <= k < n implies #[trigger] w[k] <= cap by {
        lemma_move_in_order(nodes, memo, i, k);
    }
    lemma_sum_capped(w, n, cap);
    assert(n * cap <= AREA * cap) by (nonlinear_arith)
        requires
            0 <= n <= AREA,
            0 <= cap,
    ;
    lemma_move_in_order(nodes, memo, i, m);
    lemma_pick_reaches(w, m)
}

impl MoveGraph {
    /// The graph of a search that starts from `board`, with draws that
    /// start from `seed`.
    pub fn new(board: Board, seed: u64) -> (gr: MoveGraph)
        requires
            board.wf(),
        ensures
            gr.wf(),
            gr.nodes@.len() == 1,
            gr.nodes@[0].board@ == board@,
            forall|m: int|
                0 <= m < gr.nodes@[0].moves@.len() ==> (#[trigger] gr.nodes@[0].moves@[m]).eval is None,
            gr.nodes@[0].explored == (gr.nodes@[0].moves@.len() == 0),
            gr.nodes@[0].total_score == (if gr.nodes@[0].moves@.len() == 0 {
                terminal_value(board@)
            } else {
                0
            }),
            gr.rng.state == seed,
    {
        let key = board.key();
        let root = Eval::new(board);
        let mut memo = TranspositionTable::new();
        memo.get_or_insert(key, 0);
        let mut nodes: Vec<Eval> = Vec::new();
        nodes.push(root);
        let gr = MoveGraph { nodes, memo, rng: Rng::new(seed) };
        proof {
            let e = gr.nodes@[0];
            let k = e.moves@.len() as int;
            assert forall|q: int| 0 <= q < k implies #[trigger] link_ok(gr.nodes@, 0, q) by {
                assert(e.moves@[q].eval is None);
            }
            if k > 0 {
                lemma_best_bounds(gr.nodes@, 0, k, 0);
            }
            assert(node_ok(gr.nodes@, gr.memo@, 0));
        }
        gr
    }

    /// Gives node `id` the total score and the explored mark that its
    /// moves make. Returns whether the node is still not explored.
    pub fn reassess(&mut self, id: usize) -> (more: bool)
        requires
            old(self).wf(),
            id < old(self).nodes@.len(),
        ensures
            final(self).wf(),
            final(self).extends(*old(self)),
            final(self).memo == old(self).memo,
            final(self).rng == old(self).rng,
            reassessed(old(self).nodes@, final(self).nodes@, id as int),
            assessed(final(self).nodes@, id as int),
            more == !final(self).nodes@[id as int].explored,
    {
        let n: usize = self.nodes[id].moves.len();
        let mut top: u32 = 0;
        let mut done: bool = true;
        let mut m: usize = 0;
        while m < n
            invariant
                *self == *old(self),
                self.wf(),
                id < self.nodes@.len(),
                n == self.nodes@[id as int].moves@.len(),
                m <= n,
                top == best_upto(self.nodes@, id as int, m as int),
                done == (forall|k: int| 0 <= k < m ==> #[trigger] resolved(self.nodes@, id as int, k)),
            decreases n - m,
        {
            proof {
                lemma_move_in_order(self.nodes@, self.memo@, id as int, m as int);
            }
            let mv = &self.nodes[id].moves[m];
            let mut worth: u32 = mv.score;
            let mut settled: bool = false;
            match mv.eval {
                Some(c) => {
                    worth = worth + self.nodes[c].total_score;
                    settled = self.nodes[c].explored;
                },
                None => {},
            }
            assert(worth == value(self.nodes@, id as int, m as int));
            assert(settled == resolved(self.nodes@, id as int, m as int));
            if worth > top {
                top = worth;
            }
            if !settled {
                done = false;
            }
            m += 1;
        }
        let ghost before = *self;
        if n > 0 {
            self.nodes[id].total_score = top;
        }
        self.nodes[id].explored = done;
        proof {
            lemma_reassessed(before.nodes@, before.memo@, self.nodes@, id as int);
        }
        !done
    }

    /// Chooses the move of node `id` that the search looks into next: one
    /// of the moves that are not resolved, drawn with the weights of the
    /// moves. There is none to choose when every move is resolved.
    pub fn select(&mut self, id: usize) -> (r: Option<usize>)
        requires
            old(self).wf(),
            id < old(self).nodes@.len(),
        ensures
            final(self).nodes == old(self).nodes,
            final(self).memo == old(self).memo,
            r is None <==> all_resolved(old(self).nodes@, id as int),
            r is None ==> final(self).rng == old(self).rng,
            r matches Some(m) ==> {
                &&& m < old(self).nodes@[id as int].moves@.len()
                &&& !resolved(old(self).nodes@, id as int, m as int)
                &&& picked(
                    weights_of(old(self).nodes@, id as int),
                    drawn(old(self).rng.state),
                    m as int,
                )
                &&& final(self).rng.state == stepped(old(self).rng.state)
            },
    {
        let n: usize = self.nodes[id].moves.len();
        let mut weights: Vec<u64> = Vec::new();
        let mut any: bool = false;
        let mut m: usize = 0;
        while m < n
            invariant
                *self == *old(self),
                self.wf(),
                id < self.nodes@.len(),
                n == self.nodes@[id as int].moves@.len(),
                m <= n,
                weights@.len() == m,
                forall|k: int|
                    0 <= k < m ==> #[trigger] weights@[k] == weights_of(self.nodes@, id as int)[k],
                any == (exists|k: int| 0 <= k < m && !#[trigger] resolved(self.nodes@, id as int, k)),
            decreases n - m,
        {
            proof {
                lemma_move_in_order(self.nodes@, self.memo@, id as int, m as int);
            }
            let mv = &self.nodes[id].moves[m];
            let pending: bool = match mv.eval {
                Some(c) => !self.nodes[c].explored,
                None => true,
            };
            assert(pending == !resolved(self.nodes@, id as int, m as int));
            if pending {
                weights.push(mv.score as u64 + 1);
                any = true;
            } else {
                weights.push(0);
            }
            m += 1;
        }
        assert(weights@ =~= weights_of(self.nodes@, id as int));
        if !any {
            return None;
        }
        proof {
            let k = choose|k: int| 0 <= k < n && !#[trigger] resolved(self.nodes@, id as int, k);
            lemma_weight_counts(weights@, k);
        }
        let draw = self.rng.next();
        let pick = weighted_pick(&weights, draw);
        proof {
            lemma_pick_has_weight(weights@, draw, pick as int);
        }
        Some(pick)
    }
}

/// The board that move `m` of node `i` makes.
pub open spec fn board_after(nodes: Seq<Eval>, i: int, m: int) -> Grid {
    after_move(nodes[i].board@, cells_of(nodes[i].moves@[m].pos@))
}

/// Node `c` of `next` is what playing move `m` of node `i` of `prev` for
/// the first time leads to: the node that the table of `prev` named for the
/// board that the move makes, if it named one; else a new node, the last of
/// `next`, none of whose moves is played.
pub open spec fn first_play(
    prev: Seq<Eval>,
    memo: Map<Seq<u8>, usize>,
    next: Seq<Eval>,
    i: int,
    m: int,
    c: int,
) -> bool {
    let key = encoding(board_after(prev, i, m));
    &&& next[c].board@ == board_after(prev, i, m)
    &&& memo.contains_key(key) ==> c == memo[key] && next.len() == prev.len()
    &&& !memo.contains_key(key) ==> {
        &&& c == prev.len()
        &&& next.len() == prev.len() + 1
        &&& forall|k: int| 0 <= k < next[c].moves@.len() ==> (#[trigger] next[c].moves@[k]).eval is None
        &&& next[c].explored == (next[c].moves@.len() == 0)
        &&& next[c].total_score == (if next[c].moves@.len() == 0 {
            terminal_value(next[c].board@)
        } else {
            0
        })
    }
    &&& forall|j: int| 0 <= j < prev.len() && j != i ==> #[trigger] next[j] == prev[j]
}

/// Node `id` has the total score and the explored mark that its moves make.
pub open spec fn assessed(nodes: Seq<Eval>, id: int) -> bool {
    &&& nodes[id].explored == all_resolved(nodes, id)
    &&& nodes[id].moves@.len() > 0 ==> nodes[id].total_score == best(nodes, id)
}

/// Node `b` is node `a` with move `m` played and leading to node `c`.
pub open spec fn link_set(a: Eval, b: Eval, m: int, c: usize) -> bool {
    &&& b.board == a.board
    &&& b.total_score == a.total_score
    &&& b.explored == a.explored
    &&& b.moves@.len() == a.moves@.len()
    &&& forall|k: int| 0 <= k < a.moves@.len() && k != m ==> #[trigger] b.moves@[k] == a.moves@[k]
    &&& b.moves@[m].pos == a.moves@[m].pos
    &&& b.moves@[m].score == a.moves@[m].score
    &&& b.moves@[m].eval == Some(c)
}

/// Between `(a, am)` and `(b, bm)` move `m` of node `i`, which had not been
/// played, has been played, and nothing else has happened: the move leads
/// to the node that the table named for the board it makes, or to a new
/// node that the table names for that board from now on.
pub open spec fn played_first(
    a: Seq<Eval>,
    am: Map<Seq<u8>, usize>,
    b: Seq<Eval>,
    bm: Map<Seq<u8>, usize>,
    i: int,
    m: int,
) -> bool {
    let key = encoding(board_after(a, i, m));
    &&& link(a, i, m) is None
    &&& link(b, i, m) is Some
    &&& first_play(a, am, b, i, m, link(b, i, m)->0 as int)
    &&& link_set(a[i], b[i], m, link(b, i, m)->0)
    &&& bm == (if am.contains_key(key) {
        am
    } else {
        am.insert(key, link(b, i, m)->0)
    })
}

/// The nodes `b` are the nodes `a` with node `id` given the total score
/// and the explored mark that its moves make.
pub open spec fn reassessed(a: Seq<Eval>, b: Seq<Eval>, id: int) -> bool {
    &&& same_but(a, b, id)
    &&& b[id].board == a[id].board
    &&& b[id].moves == a[id].moves
    &&& b[id].explored == all_resolved(a, id)
    &&& b[id].total_score == (if a[id].moves@.len() > 0 {
        best(a, id)
    } else {
        a[id].total_score as int
    })
}

/// The nodes, the table and the state of the generator `(b, bm, br)` are
/// what one step of the search from node `id` makes of `(a, am, ar)`.
///
/// In an explored node nothing happens. In a node all of whose moves are
/// resolved, the node is reassessed. Else the generator hands out a draw,
/// the draw picks a move among the weights of the node, and the move is
/// looked into: a move that had not been played is played, a move that had
/// been played is followed by a step from the node it leads to. Then the
/// node is reassessed. `fuel` bounds the depth of the step: the number of
/// tiles on the board of `id`.
pub open spec fn step_from(
    a: Seq<Eval>,
    am: Map<Seq<u8>, usize>,
    ar: u64,
    b: Seq<Eval>,
    bm: Map<Seq<u8>, usize>,
    br: u64,
    id: int,
    fuel: nat,
) -> bool
    decreases fuel,
{
    if a[id].explored {
        b == a && bm == am && br == ar
    } else if all_resolved(a, id) {
        reassessed(a, b, id) && bm == am && br == ar
    } else {
        let m = choose|m: int| picked(weights_of(a, id), drawn(ar), m);
        exists|mid: Seq<Eval>| #[trigger]
            reassessed(mid, b, id) && (match link(a, id, m) {
                None => played_first(a, am, mid, bm, id, m) && br == stepped(ar),
                Some(c) => if population(a[c as int].board@) < fuel {
                    step_from(
                        a,
                        am,
                        stepped(ar),
                        mid,
                        bm,
                        br,
                        c as int,
                        population(a[c as int].board@),
                    )
                } else {
                    false
                },
            })
    }
}

impl MoveGraph {
    /// The graph is what one step of the search from node `id` makes of
    /// `prev`.
    pub open spec fn is_step_from(&self, prev: MoveGraph, id: int) -> bool {
        step_from(
            prev.nodes@,
            prev.memo@,
            prev.rng.state,
            self.nodes@,
            self.memo@,
            self.rng.state,
            id,
            population(prev.nodes@[id].board@),
        )
    }
}

impl Move {
    /// Looks into move `index` of node `node`. A move that has been played
    /// is followed: the search goes on in the node it leads to. A move that
    /// has not been played is played: the board it makes is worked out and
    /// looked up in the table, which names the node that already stands for
    /// that board, or else a new node is made for it. Returns whether the
    /// node that the move leads to is still not explored.
    pub fn simulate(graph: &mut MoveGraph, node: usize, index: usize) -> (more: bool)
        requires
            old(graph).wf(),
            node < old(graph).nodes@.len(),
            index < old(graph).nodes@[node as int].moves@.len(),
        ensures
            final(graph).wf(),
            final(graph).extends(*old(graph)),
            link(final(graph).nodes@, node as int, index as int) is Some,
            more == !final(graph).nodes@[link(
                final(graph).nodes@,
                node as int,
                index as int,
            )->0 as int].explored,
            match link(old(graph).nodes@, node as int, index as int) {
                None => played_first(
                    old(graph).nodes@,
                    old(graph).memo@,
                    final(graph).nodes@,
                    final(graph).memo@,
                    node as int,
                    index as int,
                ) && final(graph).rng == old(graph).rng,
                Some(c) => final(graph).is_step_from(*old(graph), c as int) && assessed(
                    final(graph).nodes@,
                    c as int,
                ),
            },
            !resolved(old(graph).nodes@, node as int, index as int) ==> advanced(
                old(graph).nodes@,
                final(graph).nodes@,
            ),
        decreases population(old(graph).nodes@[node as int].board@), 0nat,
    {
        let ghost a = *graph;
        proof {
            lemma_move_in_order(a.nodes@, a.memo@, node as int, index as int);
            assert(node_ok(a.nodes@, a.memo@, node as int));
        }
        match graph.nodes[node].moves[index].eval {
            Some(c) => {
                let more = Eval::expand(graph, c);
                proof {
                    assert(later_state(a.nodes@[node as int], graph.nodes@[node as int]));
                    assert(graph.nodes@[node as int].moves@[index as int].eval == Some(c));
                }
                more
            },
            None => {
                let made = transition(
                    &graph.nodes[node].board,
                    &graph.nodes[node].moves[index].pos,
                );
                let key = made.key();
                let ghost k = key@;
                let fresh: usize = graph.nodes.len();
                let c = graph.memo.get_or_insert(key, fresh);
                if c == fresh {
                    let e = Eval::new(made);
                    graph.nodes.push(e);
                    proof {
                        lemma_node_added(a.nodes@, a.memo@, e, graph.nodes@, graph.memo@);
                    }
                } else {
                    proof {
                        assert(a.memo@.contains_key(k));
                        assert(node_ok(a.nodes@, a.memo@, c as int));
                        lemma_moves_fit(
                            a.nodes@[node as int].board@,
                            a.nodes@[node as int].moves@,
                            index as int,
                        );
                        lemma_encoding_injective(a.nodes@[c as int].board@, made@);
                    }
                }
                let ghost mid = *graph;
                graph.nodes[node].moves[index].eval = Some(c);
                proof {
                    assert(mid.nodes@[node as int] == a.nodes@[node as int]);
                    lemma_attached(
                        mid.nodes@,
                        mid.memo@,
                        graph.nodes@,
                        node as int,
                        index as int,
                        c,
                    );
                    lemma_later_nodes_chain(a.nodes@, mid.nodes@, graph.nodes@);
                    assert(newly_played(a.nodes@, graph.nodes@, node as int, index as int));
                }
                !graph.nodes[c].explored
            },
        }
    }
}

impl Eval {
    /// One step of the search from node `id`. In a node that is explored
    /// there is nothing to do. Else one of the moves that are not resolved
    /// is chosen and looked into, and the node is given the total score and
    /// the explored mark that its moves then make. Returns whether the node
    /// is still not explored.
    pub fn expand(graph: &mut MoveGraph, id: usize) -> (more: bool)
        requires
            old(graph).wf(),
            id < old(graph).nodes@.len(),
        ensures
            final(graph).wf(),
            final(graph).extends(*old(graph)),
            final(graph).is_step_from(*old(graph), id as int),
            assessed(final(graph).nodes@, id as int),
            more == !final(graph).nodes@[id as int].explored,
            old(graph).nodes@[id as int].explored ==> *final(graph) == *old(graph),
            !old(graph).nodes@[id as int].explored ==> advanced(
                old(graph).nodes@,
                final(graph).nodes@,
            ),
        decreases population(old(graph).nodes@[id as int].board@), 1nat,
    {
        let ghost a = *graph;
        proof {
            assert(node_ok(a.nodes@, a.memo@, id as int));
        }
        if graph.nodes[id].explored {
            return false;
        }
        let chosen = graph.select(id);
        match chosen {
            Some(m) => {
                Move::simulate(graph, id, m);
            },
            None => {},
        }
        let ghost mid = *graph;
        let more = graph.reassess(id);
        proof {
            lemma_later_nodes_chain(a.nodes@, mid.nodes@, graph.nodes@);
            match chosen {
                None => {
                    assert(newly_explored(a.nodes@, graph.nodes@, id as int));
                },
                Some(m0) => {
                    lemma_advanced_stays(a.nodes@, mid.nodes@, graph.nodes@);
                    let w = weights_of(a.nodes@, id as int);
                    let draw = drawn(a.rng.state);
                    let m = choose|m: int| picked(w, draw, m);
                    lemma_pick_unique(w, draw, m, m0 as int);
                    lemma_move_in_order(a.nodes@, a.memo@, id as int, m0 as int);
                    assert(reassessed(mid.nodes@, graph.nodes@, id as int));
                },
            }
        }
        more
    }
}

} // verus!
