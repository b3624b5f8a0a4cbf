//! Lines of play, and what the totals of a move graph say of them.
//!
//! A line of play removes one group after another. It earns the scores of
//! its moves, and the bonus if it ends on a clear board. The total score of
//! a node is never more than some line from its board earns, and the total
//! score of an explored node is the most that any line earns.

use vstd::prelude::*;
use crate::board::{in_grid, is_clear, is_grid, population, Cell, Grid};
use crate::extract::{
    all_groups, found_in, in_rank_order, is_extraction, position_lists,
};
use crate::group::{adjacent, has_twin, is_component, is_walk, joined, surrounded, Group};
use crate::region::{all_solid, cells_of, spot, tile};
use crate::score::score_of;
use crate::search::{
    graph_ok, lemma_best_bounds, lemma_best_is_reached, lemma_move_in_order, lemma_moves_fit,
    link, link_ok, move_lists, moves_of, node_ok, resolved, terminal_value, value, Eval, Move,
};
use crate::transition::{after_move, lemma_cleared_population};

verus! {

/// A line of play: the groups that are removed, one after the other, each
/// as the list of its positions.
pub type Line = Seq<Seq<(u32, u32)>>;

/// The line can be played from the grid: each of its lists is a group of
/// the grid that the moves before it have made.
pub open spec fn legal_line(g: Grid, line: Line) -> bool
    decreases line.len(),
{
    line.len() == 0 || (is_component(g, line[0]) && legal_line(
        after_move(g, cells_of(line[0])),
        line.skip(1),
    ))
}

/// What the line earns from the grid: the scores of its moves, and the
/// bonus if it ends on a clear grid.
pub open spec fn line_value(g: Grid, line: Line) -> int
    decreases line.len(),
{
    if line.len() == 0 {
        terminal_value(g)
    } else {
        score_of(line[0].len() as int) + line_value(
            after_move(g, cells_of(line[0])),
            line.skip(1),
        )
    }
}

/// A move put before a line that can be played after it gives a line that
/// can be played, and that earns the score of the move more.
pub proof fn lemma_line_after_move(g: Grid, pos: Seq<(u32, u32)>, rest: Line)
    requires
        is_component(g, pos),
        legal_line(after_move(g, cells_of(pos)), rest),
    ensures
        legal_line(g, seq![pos] + rest),
        line_value(g, seq![pos] + rest) == score_of(pos.len() as int) + line_value(
            after_move(g, cells_of(pos)),
            rest,
        ),
{
    let line = seq![pos] + rest;
    assert(line[0] == pos);
    assert(line.skip(1) =~= rest);
}

/// In a group, every tile touches a tile of the group.
pub proof fn lemma_member_has_twin(g: Grid, pos: Seq<(u32, u32)>, k: int)
    requires
        is_component(g, pos),
        0 <= k < pos.len(),
    ensures
        has_twin(g, spot(pos[k])),
        tile(g, spot(pos[k])) != Cell::Empty,
{
    let r = cells_of(pos);
    let p = spot(pos[k]);
    let other = if k == 0 {
        1
    } else {
        0
    };
    let q = spot(pos[other]);
    assert(r.contains(p));
    assert(r.contains(q));
    assert(p != q) by {
        if k == 0 {
            assert(spot(pos[0]) != spot(pos[1]));
        } else {
            assert(spot(pos[0]) != spot(pos[k]));
        }
    }
    assert(joined(r, p, q));
    let w = choose|w: Seq<(int, int)>| #[trigger] is_walk(w, r) && w.first() == p && w.last() == q;
    assert(w.len() >= 2);
    assert(adjacent(w[0], w[1]));
    assert(r.contains(w[1]));
    let j = choose|j: int| 0 <= j < pos.len() && #[trigger] spot(pos[j]) == w[1];
    assert(in_grid(spot(pos[j])));
    assert(tile(g, spot(pos[j])) == tile(g, spot(pos[0])));
    assert(tile(g, spot(pos[k])) == tile(g, spot(pos[0])));
}

/// A walk inside a group that starts in another group of the same grid
/// stays in that other group.
pub proof fn lemma_walk_stays(
    g: Grid,
    a: Seq<(u32, u32)>,
    b: Seq<(u32, u32)>,
    w: Seq<(int, int)>,
    n: int,
)
    requires
        is_component(g, a),
        is_component(g, b),
        is_walk(w, cells_of(a)),
        cells_of(b).contains(w[0]),
        0 <= n < w.len(),
    ensures
        cells_of(b).contains(w[n]),
    decreases n,
{
    if n > 0 {
        lemma_walk_stays(g, a, b, w, n - 1);
        let p = w[n - 1];
        let q = w[n];
        assert(adjacent(p, q));
        assert(cells_of(a).contains(p) && cells_of(a).contains(q));
        let i = choose|i: int| 0 <= i < a.len() && #[trigger] spot(a[i]) == p;
        let j = choose|j: int| 0 <= j < a.len() && #[trigger] spot(a[j]) == q;
        assert(tile(g, spot(a[i])) == tile(g, spot(a[0])));
        assert(tile(g, spot(a[j])) == tile(g, spot(a[0])));
        assert(in_grid(spot(a[j])));
        assert(surrounded(g, tile(g, p), cells_of(b), p));
    }
}

/// Two groups of a grid that share a position hold the same positions, and
/// as many.
pub proof fn lemma_groups_meet(g: Grid, a: Seq<(u32, u32)>, b: Seq<(u32, u32)>, p: (int, int))
    requires
        is_grid(g),
        is_component(g, a),
        is_component(g, b),
        cells_of(a).contains(p),
        cells_of(b).contains(p),
    ensures
        cells_of(a) == cells_of(b),
        a.len() == b.len(),
{
    let ra = cells_of(a);
    let rb = cells_of(b);
    assert forall|q: (int, int)| ra.contains(q) implies rb.contains(q) by {
        assert(joined(ra, p, q));
        let w = choose|w: Seq<(int, int)>|
            #[trigger] is_walk(w, ra) && w.first() == p && w.last() == q;
        lemma_walk_stays(g, a, b, w, w.len() - 1);
    }
    assert forall|q: (int, int)| rb.contains(q) implies ra.contains(q) by {
        assert(joined(rb, p, q));
        let w = choose|w: Seq<(int, int)>|
            #[trigger] is_walk(w, rb) && w.first() == p && w.last() == q;
        lemma_walk_stays(g, b, a, w, w.len() - 1);
    }
    assert(ra =~= rb);
    assert(all_solid(g, a));
    assert(all_solid(g, b));
    lemma_cleared_population(g, a);
    lemma_cleared_population(g, b);
}

/// Every group of a grid is one of the lists that hold all its groups.
pub proof fn lemma_group_is_listed(g: Grid, lists: Seq<Seq<(u32, u32)>>, pos: Seq<(u32, u32)>) -> (m:
    int)
    requires
        is_grid(g),
        all_groups(g, lists),
        is_component(g, pos),
    ensures
        0 <= m < lists.len(),
        cells_of(lists[m]) == cells_of(pos),
        lists[m].len() == pos.len(),
{
    let p = spot(pos[0]);
    lemma_member_has_twin(g, pos, 0);
    assert(in_grid(p));
    assert(found_in(lists, p));
    let m = choose|m: int| 0 <= m < lists.len() && cells_of(#[trigger] lists[m]).contains(p);
    assert(cells_of(pos).contains(p));
    lemma_groups_meet(g, lists[m], pos, p);
    m
}

/// A board whose node has no move has no group.
pub proof fn lemma_no_moves_no_group(g: Grid, moves: Seq<Move>, pos: Seq<(u32, u32)>)
    requires
        is_grid(g),
        moves_of(g, moves),
        moves.len() == 0,
    ensures
        !is_component(g, pos),
{
    if is_component(g, pos) {
        let groups = choose|groups: Seq<Group>| #[trigger]
            is_extraction(g, groups) && in_rank_order(groups) && position_lists(groups)
                == move_lists(moves);
        assert(position_lists(groups).len() == 0);
        let m = lemma_group_is_listed(g, position_lists(groups), pos);
    }
}

/// A board with a group is not clear.
pub proof fn lemma_group_needs_tiles(g: Grid, pos: Seq<(u32, u32)>)
    requires
        is_component(g, pos),
    ensures
        !is_clear(g),
{
    let p = spot(pos[0]);
    assert(in_grid(p));
    assert(g[p.0][p.1] != Cell::Empty);
}

/// The total score of a node is earned: some line of play from the board of
/// the node earns at least as much.
pub proof fn lemma_total_is_earned(nodes: Seq<Eval>, memo: Map<Seq<u8>, usize>, i: int) -> (line:
    Line)
    requires
        graph_ok(nodes, memo),
        0 <= i < nodes.len(),
    ensures
        legal_line(nodes[i].board@, line),
        nodes[i].total_score <= line_value(nodes[i].board@, line),
    decreases population(nodes[i].board@),
{
    let e = nodes[i];
    let g = e.board@;
    let n = e.moves@.len() as int;
    assert(node_ok(nodes, memo, i));
    if n == 0 {
        Seq::<Seq<(u32, u32)>>::empty()
    } else {
        assert forall|k: int| 0 <= k < n implies 0 <= #[trigger] value(nodes, i, k) by {
            lemma_move_in_order(nodes, memo, i, k);
        }
        let m = lemma_best_is_reached(nodes, i, n);
        lemma_move_in_order(nodes, memo, i, m);
        lemma_moves_fit(g, e.moves@, m);
        assert(link_ok(nodes, i, m));
        let pos = e.moves@[m].pos@;
        let after = after_move(g, cells_of(pos));
        match link(nodes, i, m) {
            Some(c) => {
                let rest = lemma_total_is_earned(nodes, memo, c as int);
                lemma_line_after_move(g, pos, rest);
                seq![pos] + rest
            },
            None => {
                let rest = Seq::<Seq<(u32, u32)>>::empty();
                assert(legal_line(after, rest));
                lemma_line_after_move(g, pos, rest);
                seq![pos] + rest
            },
        }
    }
}

/// The total score of an explored node is earned exactly: some line of
/// play from the board of the node earns it.
pub proof fn lemma_explored_is_earned(nodes: Seq<Eval>, memo: Map<Seq<u8>, usize>, i: int) -> (line:
    Line)
    requires
        graph_ok(nodes, memo),
        0 <= i < nodes.len(),
        nodes[i].explored,
    ensures
        legal_line(nodes[i].board@, line),
        nodes[i].total_score == line_value(nodes[i].board@, line),
    decreases population(nodes[i].board@),
{
    let e = nodes[i];
    let g = e.board@;
    let n = e.moves@.len() as int;
    assert(node_ok(nodes, memo, i));
    if n == 0 {
        Seq::<Seq<(u32, u32)>>::empty()
    } else {
        assert forall|k: int| 0 <= k < n implies 0 <= #[trigger] value(nodes, i, k) by {
            lemma_move_in_order(nodes, memo, i, k);
        }
        let m = lemma_best_is_reached(nodes, i, n);
        lemma_move_in_order(nodes, memo, i, m);
        lemma_moves_fit(g, e.moves@, m);
        assert(link_ok(nodes, i, m));
        assert(resolved(nodes, i, m));
        let pos = e.moves@[m].pos@;
        let c = link(nodes, i, m)->0;
        let rest = lemma_explored_is_earned(nodes, memo, c as int);
        lemma_line_after_move(g, pos, rest);
        seq![pos] + rest
    }
}

/// The total score of an explored node is the best: no line of play from
/// the board of the node earns more.
pub proof fn lemma_explored_is_best(
    nodes: Seq<Eval>,
    memo: Map<Seq<u8>, usize>,
    i: int,
    line: Line,
)
    requires
        graph_ok(nodes, memo),
        0 <= i < nodes.len(),
        nodes[i].explored,
        legal_line(nodes[i].board@, line),
    ensures
        line_value(nodes[i].board@, line) <= nodes[i].total_score,
    decreases line.len(),
{
    let e = nodes[i];
    let g = e.board@;
    let n = e.moves@.len() as int;
    assert(node_ok(nodes, memo, i));
    if line.len() == 0 {
        if n > 0 {
            lemma_moves_fit(g, e.moves@, 0);
            lemma_group_needs_tiles(g, e.moves@[0].pos@);
        }
    } else {
        let pos = line[0];
        if n > 0 {
            lemma_moves_fit(g, e.moves@, 0);
        } else {
            lemma_no_moves_no_group(g, e.moves@, pos);
        }
        let m = lemma_group_is_listed(g, move_lists(e.moves@), pos);
        lemma_move_in_order(nodes, memo, i, m);
        assert(link_ok(nodes, i, m));
        assert(resolved(nodes, i, m));
        let c = link(nodes, i, m)->0;
        assert(move_lists(e.moves@)[m] == e.moves@[m].pos@);
        assert(nodes[c as int].board@ == after_move(g, cells_of(pos)));
        lemma_explored_is_best(nodes, memo, c as int, line.skip(1));
        lemma_best_bounds(nodes, i, n, m);
    }
}

} // verus!
