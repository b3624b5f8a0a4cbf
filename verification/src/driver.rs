//! The driver of a search: stepping, and reading off the best line of play
//! that the search knows.
//!
//! A search can be stopped after any step. The total score of the root is
//! then the best score that the search has found, and the best line tells
//! how to earn it as far as the search has played it out.

use vstd::prelude::*;
use crate::board::{population, Board};
use crate::expand::assessed;
use crate::search::{
    advanced, lemma_move_in_order, lemma_moves_fit, link, node_ok, terminal_value, value, Eval,
    MoveGraph,
};

verus! {

/// One move of a line of play.
#[derive(Clone, Copy, Debug, PartialEq, Eq)]
pub struct Step {
    /// The node in which the move is made.
    pub node: usize,
    /// The place of the move among the moves of the node.
    pub index: usize,
    /// The first tile of the group that the move removes.
    pub cell: (u32, u32),
    /// What the move earns.
    pub score: u32,
}

/// Move `m` of node `i` is the one that the best line takes: it has been
/// played, no played move is worth more, and no played move after it is
/// worth as much.
pub open spec fn is_choice(nodes: Seq<Eval>, i: int, m: int) -> bool {
    &&& 0 <= m < nodes[i].moves@.len()
    &&& link(nodes, i, m) is Some
    &&& forall|k: int|
        0 <= k < nodes[i].moves@.len() && (#[trigger] link(nodes, i, k)) is Some ==> {
            &&& value(nodes, i, k) <= value(nodes, i, m)
            &&& k > m ==> value(nodes, i, k) < value(nodes, i, m)
        }
}

/// No move of node `i` has been played.
pub open spec fn unplayed(nodes: Seq<Eval>, i: int) -> bool {
    forall|k: int| 0 <= k < nodes[i].moves@.len() ==> (#[trigger] link(nodes, i, k)) is None
}

/// The node in which step `k` of a line from `root` is made.
pub open spec fn station(nodes: Seq<Eval>, root: int, line: Seq<Step>, k: int) -> int {
    if k <= 0 {
        root
    } else {
        link(nodes, line[k - 1].node as int, line[k - 1].index as int)->0 as int
    }
}

/// Step `k` of the line is the move that the best line takes in its node.
pub open spec fn step_ok(nodes: Seq<Eval>, root: int, line: Seq<Step>, k: int) -> bool {
    let s = line[k];
    &&& s.node == station(nodes, root, line, k)
    &&& s.node < nodes.len()
    &&& is_choice(nodes, s.node as int, s.index as int)
    &&& s.cell == nodes[s.node as int].moves@[s.index as int].pos@[0]
    &&& s.score == nodes[s.node as int].moves@[s.index as int].score
}

/// The line is the best line from `root`: it starts in `root`, takes in
/// every node the played move that is worth most (the last of them, where
/// several are worth the same), and ends in a node none of whose moves has
/// been played.
pub open spec fn is_best_line(nodes: Seq<Eval>, root: int, line: Seq<Step>) -> bool {
    &&& forall|k: int| 0 <= k < line.len() ==> #[trigger] step_ok(nodes, root, line, k)
    &&& unplayed(nodes, station(nodes, root, line, line.len() as int))
}

impl MoveGraph {
    /// The move of node `id` that the best line takes, if any move of the
    /// node has been played.
    pub fn choose_best(&self, id: usize) -> (r: Option<usize>)
        requires
            self.wf(),
            id < self.nodes@.len(),
        ensures
            r is None <==> unplayed(self.nodes@, id as int),
            r matches Some(m) ==> is_choice(self.nodes@, id as int, m as int),
    {
        let n: usize = self.nodes[id].moves.len();
        let mut pick: Option<usize> = None;
        let mut top: u32 = 0;
        let mut m: usize = 0;
        while m < n
            invariant
                self.wf(),
                id < self.nodes@.len(),
                n == self.nodes@[id as int].moves@.len(),
                m <= n,
                pick is None ==> forall|k: int|
                    0 <= k < m ==> (#[trigger] link(self.nodes@, id as int, k)) is None,
                pick matches Some(p) ==> {
                    &&& p < m
                    &&& link(self.nodes@, id as int, p as int) is Some
                    &&& top == value(self.nodes@, id as int, p as int)
                    &&& forall|k: int|
                        0 <= k < m && (#[trigger] link(self.nodes@, id as int, k)) is Some ==> {
                            &&& value(self.nodes@, id as int, k) <= top
                            &&& k > p ==> value(self.nodes@, id as int, k) < top
                        }
                },
            decreases n - m,
        {
            proof {
                lemma_move_in_order(self.nodes@, self.memo@, id as int, m as int);
            }
            let mv = &self.nodes[id].moves[m];
            match mv.eval {
                Some(c) => {
                    let worth: u32 = mv.score + self.nodes[c].total_score;
                    if pick.is_none() || worth >= top {
                        pick = Some(m);
                        top = worth;
                    }
                },
                None => {},
            }
            m += 1;
        }
        pick
    }

    /// The best line from node `root`.
    pub fn best_path(&self, root: usize) -> (line: Vec<Step>)
        requires
            self.wf(),
            root < self.nodes@.len(),
        ensures
            is_best_line(self.nodes@, root as int, line@),
    {
        let mut line: Vec<Step> = Vec::new();
        let mut at: usize = root;
        loop
            invariant
                self.wf(),
                at < self.nodes@.len(),
                at == station(self.nodes@, root as int, line@, line@.len() as int),
                forall|k: int|
                    0 <= k < line@.len() ==> #[trigger] step_ok(self.nodes@, root as int, line@, k),
            ensures
                is_best_line(self.nodes@, root as int, line@),
            decreases population(self.nodes@[at as int].board@),
        {
            match self.choose_best(at) {
                None => {
                    break ;
                },
                Some(m) => {
                    proof {
                        assert(node_ok(self.nodes@, self.memo@, at as int));
                        lemma_move_in_order(self.nodes@, self.memo@, at as int, m as int);
                        lemma_moves_fit(
                            self.nodes@[at as int].board@,
                            self.nodes@[at as int].moves@,
                            m as int,
                        );
                    }
                    let mv = &self.nodes[at].moves[m];
                    let ghost before = line@;
                    let step = Step { node: at, index: m, cell: mv.pos[0], score: mv.score };
                    line.push(step);
                    proof {
                        assert forall|k: int| 0 <= k < line@.len() implies #[trigger] step_ok(
                            self.nodes@,
                            root as int,
                            line@,
                            k,
                        ) by {
                            if k < before.len() {
                                assert(step_ok(self.nodes@, root as int, before, k));
                            }
                        }
                    }
                    match mv.eval {
                        Some(c) => {
                            at = c;
                        },
                        None => {},
                    }
                },
            }
        }
        line
    }
}

/// What one step of a driven search has done.
#[derive(Clone, Copy, Debug, PartialEq, Eq, Structural)]
pub struct Progress {
    /// Whether the root is still not explored.
    pub more: bool,
    /// Whether the total score of the root has passed the best score that
    /// had been reported.
    pub improved: bool,
}

/// A search with its root and the best score reported so far.
pub struct Driver {
    /// The move graph; node `0` is the root.
    pub graph: MoveGraph,
    /// The best total score of the root that has been reported.
    pub max_score: u32,
}

impl Driver {
    /// The graph is in order, and the root is worth no less than has been
    /// reported.
    pub open spec fn wf(&self) -> bool {
        &&& self.graph.wf()
        &&& self.max_score <= self.graph.nodes@[0].total_score
    }

    /// The search that starts from `board`, with draws that start from
    /// `seed`. Nothing has been reported yet.
    pub fn new(board: Board, seed: u64) -> (d: Driver)
        requires
            board.wf(),
        ensures
            d.wf(),
            d.max_score == 0,
            d.graph.nodes@.len() == 1,
            d.graph.nodes@[0].board@ == board@,
            d.graph.nodes@[0].explored == (d.graph.nodes@[0].moves@.len() == 0),
            d.graph.nodes@[0].total_score == (if d.graph.nodes@[0].moves@.len() == 0 {
                terminal_value(board@)
            } else {
                0
            }),
    {
        Driver { graph: MoveGraph::new(board, seed), max_score: 0 }
    }

    /// The total score of the root: the best score found so far.
    pub fn total_score(&self) -> (r: u32)
        requires
            self.wf(),
        ensures
            r == self.graph.nodes@[0].total_score,
    {
        self.graph.nodes[0].total_score
    }

    /// Whether the root is explored: the total score is then the most that
    /// any line of play earns.
    pub fn finished(&self) -> (r: bool)
        requires
            self.wf(),
        ensures
            r == self.graph.nodes@[0].explored,
    {
        self.graph.nodes[0].explored
    }

    /// The best line from the root.
    pub fn best_path(&self) -> (line: Vec<Step>)
        requires
            self.wf(),
        ensures
            is_best_line(self.graph.nodes@, 0, line@),
    {
        self.graph.best_path(0)
    }

    /// One step of the search from the root. Tells whether the root is
    /// still not explored, and whether its total score has passed what had
    /// been reported; if it has, the new total score counts as reported.
    pub fn step(&mut self) -> (r: Progress)
        requires
            old(self).wf(),
        ensures
            final(self).wf(),
            final(self).graph.extends(old(self).graph),
            final(self).graph.is_step_from(old(self).graph, 0),
            assessed(final(self).graph.nodes@, 0),
            r.more == !final(self).graph.nodes@[0].explored,
            r.improved == (final(self).graph.nodes@[0].total_score > old(self).max_score),
            final(self).max_score == final(self).graph.nodes@[0].total_score,
            old(self).graph.nodes@[0].explored ==> final(self).graph == old(self).graph,
            !old(self).graph.nodes@[0].explored ==> advanced(
                old(self).graph.nodes@,
                final(self).graph.nodes@,
            ),
    {
        let more = Eval::expand(&mut self.graph, 0);
        let total = self.graph.nodes[0].total_score;
        let improved = total > self.max_score;
        self.max_score = total;
        Progress { more, improved }
    }
}

} // verus!
