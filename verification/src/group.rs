//! Groups: the connected clusters of tiles of one colour that a move removes.

use vstd::prelude::*;
use vstd::set_lib::{lemma_int_range, lemma_len_subset, set_int_range};
use crate::board::{in_grid, Board, Cell, Grid, AREA, SIDE};
use crate::region::{cells_of, distinct, inside, spot, tile, CellSet, Region};

verus! {

/// Two positions touch along an edge.
pub open spec fn adjacent(p: (int, int), q: (int, int)) -> bool {
    ||| (p.0 == q.0 && (p.1 == q.1 + 1 || q.1 == p.1 + 1))
    ||| (p.1 == q.1 && (p.0 == q.0 + 1 || q.0 == p.0 + 1))
}

/// A walk inside a region: a sequence of positions of the region in which
/// each position touches the next.
pub open spec fn is_walk(w: Seq<(int, int)>, r: Region) -> bool {
    &&& w.len() > 0
    &&& forall|i: int| 0 <= i < w.len() ==> r.contains(#[trigger] w[i])
    &&& forall|i: int| 0 <= i < w.len() - 1 ==> adjacent(#[trigger] w[i], w[i + 1])
}

/// Two positions are joined inside a region by a walk.
pub open spec fn joined(r: Region, a: (int, int), b: (int, int)) -> bool {
    exists|w: Seq<(int, int)>| #[trigger] is_walk(w, r) && w.first() == a && w.last() == b
}

/// Any two positions of the region are joined inside it.
pub open spec fn connected(r: Region) -> bool {
    forall|a: (int, int), b: (int, int)|
        r.contains(a) && r.contains(b) ==> #[trigger] joined(r, a, b)
}

/// Every position of the grid that touches `p` and holds the colour is in
/// the region.
pub open spec fn surrounded(g: Grid, color: Cell, r: Region, p: (int, int)) -> bool {
    forall|q: (int, int)|
        in_grid(q) && #[trigger] adjacent(p, q) && tile(g, q) == color ==> r.contains(q)
}

/// The region cannot grow: whatever touches one of its positions and holds
/// the same colour belongs to it.
pub open spec fn closed(g: Grid, r: Region) -> bool {
    forall|p: (int, int)| #[trigger] r.contains(p) ==> surrounded(g, tile(g, p), r, p)
}

/// Some position that touches `p` holds the same colour as `p`.
pub open spec fn has_twin(g: Grid, p: (int, int)) -> bool {
    exists|q: (int, int)| in_grid(q) && #[trigger] adjacent(p, q) && tile(g, q) == tile(g, p)
}

/// Place of a position in the order in which a board is scanned: column
/// by column, each column from row `0` upward.
pub open spec fn scan_index(p: (int, int)) -> int {
    p.0 * SIDE + p.1
}

/// The listed positions are a group of the grid: at least two tiles of one
/// colour that hang together and to which no further tile of that colour
/// can be added. The first listed position is the first of the group in
/// scan order, and the others follow in the order in which a flood fill
/// from the first finds them.
pub open spec fn is_component(g: Grid, pos: Seq<(u32, u32)>) -> bool {
    &&& pos.len() >= 2
    &&& inside(pos)
    &&& distinct(pos)
    &&& tile(g, spot(pos[0])) != Cell::Empty
    &&& forall|i: int|
        0 <= i < pos.len() ==> tile(g, #[trigger] spot(pos[i])) == tile(g, spot(pos[0]))
    &&& connected(cells_of(pos))
    &&& closed(g, cells_of(pos))
    &&& forall|i: int|
        0 <= i < pos.len() ==> scan_index(spot(pos[0])) <= scan_index(#[trigger] spot(pos[i]))
    &&& spots(pos) == fill_from(g, spot(pos[0]))
}

/// The group of the tile at `p`, in the order of a flood fill from `p`.
pub open spec fn fill_from(g: Grid, p: (int, int)) -> Seq<(int, int)> {
    seq![p] + fill_order(g, tile(g, p), set![p], p, 0)
}

/// The smallest row among the listed positions.
pub open spec fn is_lowest_row(pos: Seq<(u32, u32)>, row: int) -> bool {
    &&& forall|i: int| 0 <= i < pos.len() ==> row <= (#[trigger] pos[i]).1
    &&& exists|i: int| 0 <= i < pos.len() && (#[trigger] pos[i]).1 == row
}

/// A cluster of tiles found on a board.
#[derive(Debug)]
pub struct Group {
    /// The positions of the tiles, as column and row; none occurs twice.
    pub pos: Vec<(u32, u32)>,
    /// The row of the lowest tile.
    pub min_y: u32,
    /// The colour of the tiles.
    pub color: Cell,
}

impl View for Group {
    type V = Region;

    open spec fn view(&self) -> Region {
        cells_of(self.pos@)
    }
}

impl Group {
    /// The group is one of the groups of the grid, and its attributes
    /// describe it.
    pub open spec fn legal_on(&self, g: Grid) -> bool {
        &&& is_component(g, self.pos@)
        &&& self.color == tile(g, spot(self.pos@[0]))
        &&& is_lowest_row(self.pos@, self.min_y as int)
    }
}

// ---------------------------------------------------------------------------
// Walks
// ---------------------------------------------------------------------------

/// A walk can be carried on by one step.
pub proof fn lemma_walk_push(w: Seq<(int, int)>, r: Region, q: (int, int))
    requires
        is_walk(w, r),
        r.contains(q),
        adjacent(w.last(), q),
    ensures
        is_walk(w.push(q), r),
        w.push(q).first() == w.first(),
        w.push(q).last() == q,
{
    let v = w.push(q);
    assert forall|i: int| 0 <= i < v.len() - 1 implies adjacent(#[trigger] v[i], v[i + 1]) by {
        if i < w.len() - 1 {
            assert(adjacent(w[i], w[i + 1]));
        }
    }
}

/// A walk can be gone backward.
pub proof fn lemma_walk_back(w: Seq<(int, int)>, r: Region) -> (v: Seq<(int, int)>)
    requires
        is_walk(w, r),
    ensures
        is_walk(v, r),
        v.first() == w.last(),
        v.last() == w.first(),
{
    let n = w.len() as int;
    let v = Seq::new(w.len(), |i: int| w[n - 1 - i]);
    assert forall|i: int| 0 <= i < v.len() - 1 implies adjacent(#[trigger] v[i], v[i + 1]) by {
        assert(adjacent(w[n - 2 - i], w[n - 2 - i + 1]));
    }
    v
}

/// Two walks that meet make one walk.
pub proof fn lemma_walk_chain(a: Seq<(int, int)>, b: Seq<(int, int)>, r: Region) -> (v: Seq<
    (int, int),
>)
    requires
        is_walk(a, r),
        is_walk(b, r),
        a.last() == b.first(),
    ensures
        is_walk(v, r),
        v.first() == a.first(),
        v.last() == b.last(),
{
    let v = a.drop_last() + b;
    assert forall|i: int| 0 <= i < v.len() - 1 implies adjacent(#[trigger] v[i], v[i + 1]) by {
        if i < a.len() - 2 {
            assert(adjacent(a[i], a[i + 1]));
        } else if i == a.len() - 2 {
            assert(adjacent(a[i], a[i + 1]));
        } else {
            assert(adjacent(b[i - (a.len() - 1)], b[i - (a.len() - 1) + 1]));
        }
    }
    v
}

/// The position listed at `k` touches a position listed before it.
pub open spec fn hangs_at(pos: Seq<(u32, u32)>, k: int) -> bool {
    exists|j: int| 0 <= j < k && #[trigger] adjacent(spot(pos[k]), spot(pos[j]))
}

/// Every listed position but the first touches one listed before it.
pub open spec fn hangs(pos: Seq<(u32, u32)>) -> bool {
    forall|k: int| 1 <= k < pos.len() ==> #[trigger] hangs_at(pos, k)
}

/// In a list that hangs together, a walk leads from the first position to
/// every other.
pub proof fn lemma_walk_from_first(pos: Seq<(u32, u32)>, k: int) -> (w: Seq<(int, int)>)
    requires
        hangs(pos),
        0 <= k < pos.len(),
    ensures
        is_walk(w, cells_of(pos)),
        w.first() == spot(pos[0]),
        w.last() == spot(pos[k]),
    decreases k,
{
    let r = cells_of(pos);
    assert(r.contains(spot(pos[k])));
    if k == 0 {
        seq![spot(pos[0])]
    } else {
        assert(hangs_at(pos, k));
        let j = choose|j: int| 0 <= j < k && #[trigger] adjacent(spot(pos[k]), spot(pos[j]));
        let w0 = lemma_walk_from_first(pos, j);
        lemma_walk_push(w0, r, spot(pos[k]));
        w0.push(spot(pos[k]))
    }
}

/// A list of positions that hangs together is connected.
pub proof fn lemma_hanging_is_connected(pos: Seq<(u32, u32)>)
    requires
        hangs(pos),
    ensures
        connected(cells_of(pos)),
{
    let r = cells_of(pos);
    assert forall|a: (int, int), b: (int, int)| r.contains(a) && r.contains(b) implies #[trigger] joined(
        r,
        a,
        b,
    ) by {
        let i = choose|i: int| 0 <= i < pos.len() && #[trigger] spot(pos[i]) == a;
        let k = choose|k: int| 0 <= k < pos.len() && #[trigger] spot(pos[k]) == b;
        let wa = lemma_walk_from_first(pos, i);
        let wb = lemma_walk_from_first(pos, k);
        let back = lemma_walk_back(wa, r);
        let w = lemma_walk_chain(back, wb, r);
        assert(is_walk(w, r) && w.first() == a && w.last() == b);
    }
}

// ---------------------------------------------------------------------------
// Flood fill
// ---------------------------------------------------------------------------

/// The positions listed from place `lo` on.
pub open spec fn cells_from(pos: Seq<(u32, u32)>, lo: int) -> Region {
    Set::new(
        |p: (int, int)| exists|k: int| lo <= k < pos.len() && #[trigger] spot(pos[k]) == p,
    )
}

/// The position lies inside the grid, holds the colour and is not in the
/// region.
pub open spec fn fresh(g: Grid, color: Cell, seen: Region, p: (int, int)) -> bool {
    in_grid(p) && tile(g, p) == color && !seen.contains(p)
}

/// The position listed at `k` touches `root` or a position listed before
/// it, from place `lo` on.
pub open spec fn hooked(pos: Seq<(u32, u32)>, lo: int, k: int, root: (int, int)) -> bool {
    ||| adjacent(spot(pos[k]), root)
    ||| exists|j: int| lo <= j < k && #[trigger] adjacent(spot(pos[k]), spot(pos[j]))
}

/// What a flood fill from `root` has added to a list of positions and to the
/// set of positions seen so far: the new positions are listed after the old
/// ones and are exactly what the set has gained; they were not seen before,
/// hold the colour and differ from one another; each of them touches `root`
/// or a new position listed before it.
pub open spec fn grown(
    g: Grid,
    color: Cell,
    root: (int, int),
    seen0: Region,
    pos0: Seq<(u32, u32)>,
    seen1: Region,
    pos1: Seq<(u32, u32)>,
) -> bool {
    let lo = pos0.len() as int;
    &&& pos0.len() <= pos1.len()
    &&& forall|k: int| 0 <= k < lo ==> #[trigger] pos1[k] == pos0[k]
    &&& seen1 == seen0.union(cells_from(pos1, lo))
    &&& forall|k: int| lo <= k < pos1.len() ==> fresh(g, color, seen0, #[trigger] spot(pos1[k]))
    &&& forall|j: int, k: int|
        lo <= j < k < pos1.len() ==> #[trigger] spot(pos1[j]) != #[trigger] spot(pos1[k])
    &&& forall|k: int| lo <= k < pos1.len() ==> #[trigger] hooked(pos1, lo, k, root)
}

/// Every position listed from place `lo` on is surrounded by the region.
pub open spec fn all_surrounded(
    g: Grid,
    color: Cell,
    seen: Region,
    pos: Seq<(u32, u32)>,
    lo: int,
) -> bool {
    forall|k: int| lo <= k < pos.len() ==> surrounded(g, color, seen, #[trigger] spot(pos[k]))
}

/// What a completed flood fill from `root` has reached: beside what `grown`
/// says, nothing is left to add, neither next to `root` nor next to a new
/// position.
pub open spec fn flooded(
    g: Grid,
    color: Cell,
    root: (int, int),
    seen0: Region,
    pos0: Seq<(u32, u32)>,
    seen1: Region,
    pos1: Seq<(u32, u32)>,
) -> bool {
    &&& grown(g, color, root, seen0, pos0, seen1, pos1)
    &&& all_surrounded(g, color, seen1, pos1, pos0.len() as int)
    &&& surrounded(g, color, seen1, root)
}

/// The position next to `p` on side `d`: below, above, left, right.
pub open spec fn beside(p: (int, int), d: int) -> (int, int) {
    if d == 0 {
        (p.0, p.1 - 1)
    } else if d == 1 {
        (p.0, p.1 + 1)
    } else if d == 2 {
        (p.0 - 1, p.1)
    } else {
        (p.0 + 1, p.1)
    }
}

/// Side `d` of a position is done with: the position on that side is
/// outside the grid, or does not hold the colour, or is in the region.
pub open spec fn side_done(g: Grid, color: Cell, seen: Region, p: (int, int), d: int) -> bool {
    let q = beside(p, d);
    in_grid(q) && tile(g, q) == color ==> seen.contains(q)
}

/// The listed positions as pairs of column and row.
pub open spec fn spots(pos: Seq<(u32, u32)>) -> Seq<(int, int)> {
    Seq::new(pos.len(), |k: int| spot(pos[k]))
}

/// The positions of the grid that are not in the region.
pub open spec fn unseen(seen: Region) -> Region {
    Set::new(|p: (int, int)| in_grid(p) && !seen.contains(p))
}

/// Only finitely many positions of the grid are not in a region.
pub proof fn lemma_unseen_finite(seen: Region)
    ensures
        unseen(seen).finite(),
{
    let numbers = set_int_range(0, AREA as int);
    let place = |i: int| (i / 15, i % 15);
    lemma_int_range(0, AREA as int);
    numbers.lemma_map_finite(place);
    let all = numbers.map(place);
    assert forall|p: (int, int)| unseen(seen).contains(p) implies all.contains(p) by {
        let i = p.0 * 15 + p.1;
        assert(numbers.contains(i));
        assert(i / 15 == p.0 && i % 15 == p.1);
        assert(place(i) == p);
    }
    lemma_len_subset(unseen(seen), all);
}

/// A region that has gained a position of the grid leaves fewer positions
/// of the grid out.
pub proof fn lemma_unseen_shrinks(seen: Region, more: Region, q: (int, int))
    requires
        seen.subset_of(more),
        in_grid(q),
        !seen.contains(q),
        more.contains(q),
    ensures
        unseen(more).len() < unseen(seen).len(),
{
    lemma_unseen_finite(seen);
    let was = unseen(seen);
    assert(was.contains(q));
    assert(unseen(more).subset_of(was.remove(q)));
    lemma_len_subset(unseen(more), was.remove(q));
}

/// The positions that a flood fill adds, in the order in which it adds
/// them, when it looks at the sides of `p` from side `d` on and `seen` is
/// what has been seen. A side that holds the colour and has not been seen is
/// added, then what the fill from that side adds, and only then the next
/// side is looked at.
pub open spec fn fill_order(g: Grid, color: Cell, seen: Region, p: (int, int), d: int) -> Seq<
    (int, int),
>
    decreases unseen(seen).len(), 4 - d,
{
    if d < 0 || d >= 4 {
        Seq::empty()
    } else {
        let q = beside(p, d);
        if fresh(g, color, seen, q) {
            proof {
                lemma_unseen_shrinks(seen, seen.insert(q), q);
            }
            let first = seq![q] + fill_order(g, color, seen.insert(q), q, 0);
            proof {
                assert(first[0] == q);
                assert(first.to_set().contains(q));
                lemma_unseen_shrinks(seen, seen.union(first.to_set()), q);
            }
            first + fill_order(g, color, seen.union(first.to_set()), p, d + 1)
        } else {
            fill_order(g, color, seen, p, d + 1)
        }
    }
}

/// What a flood fill adds does not depend on what has been seen elsewhere:
/// tiles that are apart from the tile the fill looks around, in a region
/// that holds with a tile every tile of its colour that touches it.
pub proof fn lemma_fill_apart(
    g: Grid,
    color: Cell,
    away: Region,
    seen: Region,
    p: (int, int),
    d: int,
)
    requires
        closed(g, away),
        in_grid(p),
        tile(g, p) == color,
        !away.contains(p),
    ensures
        fill_order(g, color, away.union(seen), p, d) == fill_order(g, color, seen, p, d),
    decreases unseen(seen).len(), 4 - d,
{
    if 0 <= d < 4 {
        let q = beside(p, d);
        assert(adjacent(q, p));
        assert(fresh(g, color, away.union(seen), q) == fresh(g, color, seen, q)) by {
            if in_grid(q) && tile(g, q) == color && away.contains(q) {
                assert(surrounded(g, tile(g, q), away, q));
            }
        }
        if fresh(g, color, seen, q) {
            let below = fill_order(g, color, seen.insert(q), q, 0);
            let first = seq![q] + below;
            assert(first[0] == q);
            assert(first.to_set().contains(q));
            lemma_unseen_shrinks(seen, seen.insert(q), q);
            lemma_unseen_shrinks(seen, seen.union(first.to_set()), q);
            lemma_fill_apart(g, color, away, seen.insert(q), q, 0);
            assert(away.union(seen).insert(q) =~= away.union(seen.insert(q)));
            lemma_fill_apart(g, color, away, seen.union(first.to_set()), p, d + 1);
            assert(away.union(seen).union(first.to_set()) =~= away.union(
                seen.union(first.to_set()),
            ));
        } else {
            lemma_fill_apart(g, color, away, seen, p, d + 1);
        }
    }
}

/// The position next to column `x`, row `y` on side `d`, if the grid has one.
pub fn neighbour(x: u32, y: u32, d: u8) -> (r: Option<(u32, u32)>)
    requires
        x < SIDE,
        y < SIDE,
        d < 4,
    ensures
        r is Some <==> in_grid(beside((x as int, y as int), d as int)),
        r matches Some(n) ==> spot(n) == beside((x as int, y as int), d as int),
{
    if d == 0 {
        if y > 0 {
            Some((x, y - 1))
        } else {
            None
        }
    } else if d == 1 {
        if y < 14 {
            Some((x, y + 1))
        } else {
            None
        }
    } else if d == 2 {
        if x > 0 {
            Some((x - 1, y))
        } else {
            None
        }
    } else {
        if x < 14 {
            Some((x + 1, y))
        } else {
            None
        }
    }
}

/// A position all of whose sides are done with is surrounded.
pub proof fn lemma_sides_done(g: Grid, color: Cell, seen: Region, p: (int, int))
    requires
        side_done(g, color, seen, p, 0),
        side_done(g, color, seen, p, 1),
        side_done(g, color, seen, p, 2),
        side_done(g, color, seen, p, 3),
    ensures
        surrounded(g, color, seen, p),
{
    assert forall|q: (int, int)|
        in_grid(q) && #[trigger] adjacent(p, q) && tile(g, q) == color implies seen.contains(
        q,
    ) by {
        assert(q == beside(p, 0) || q == beside(p, 1) || q == beside(p, 2) || q == beside(p, 3));
    }
}

/// Flood fill from one tile of a group. Looks at the four positions next to
/// column `x`, row `y` (below, above, left, right, in this order); each one
/// that holds `color` and is not in `in_any_group` is added to the group and
/// to `in_any_group`, and the fill goes on from there before the next side
/// is looked at.
pub fn explore_group(
    x: u32,
    y: u32,
    color: Cell,
    group: &mut Group,
    in_any_group: &mut CellSet,
    board: &Board,
)
    requires
        board.wf(),
        old(in_any_group).wf(),
        x < SIDE,
        y < SIDE,
    ensures
        final(in_any_group).wf(),
        final(in_any_group).count() == old(in_any_group).count() + final(group).pos@.len() - old(
            group,
        ).pos@.len(),
        final(group).color == old(group).color,
        final(group).min_y == old(group).min_y,
        spots(final(group).pos@) == spots(old(group).pos@) + fill_order(
            board@,
            color,
            old(in_any_group)@,
            (x as int, y as int),
            0,
        ),
        flooded(
            board@,
            color,
            (x as int, y as int),
            old(in_any_group)@,
            old(group).pos@,
            final(in_any_group)@,
            final(group).pos@,
        ),
    decreases AREA - old(in_any_group).count(),
{
    let ghost seen0 = in_any_group@;
    let ghost pos0 = group.pos@;
    let ghost lo = pos0.len() as int;
    let ghost root = (x as int, y as int);
    let ghost g = board@;
    let ghost count0 = in_any_group.count();
    let ghost whole = spots(pos0) + fill_order(g, color, seen0, root, 0);
    proof {
        in_any_group.lemma_count_bound();
        assert(in_any_group@ =~= seen0.union(cells_from(group.pos@, lo)));
    }
    let mut d: u8 = 0;
    while d < 4
        invariant
            d <= 4,
            board.wf(),
            g == board@,
            in_any_group.wf(),
            x < SIDE,
            y < SIDE,
            root == (x as int, y as int),
            lo == pos0.len(),
            seen0 == old(in_any_group)@,
            pos0 == old(group).pos@,
            group.color == old(group).color,
            group.min_y == old(group).min_y,
            count0 == old(in_any_group).count(),
            in_any_group.count() == count0 + group.pos@.len() - lo,
            in_any_group.count() <= AREA,
            lo <= group.pos@.len(),
            whole == spots(pos0) + fill_order(g, color, seen0, root, 0),
            whole == spots(group.pos@) + fill_order(g, color, in_any_group@, root, d as int),
            grown(g, color, root, seen0, pos0, in_any_group@, group.pos@),
            all_surrounded(g, color, in_any_group@, group.pos@, lo),
            forall|e: int| 0 <= e < d ==> #[trigger] side_done(g, color, in_any_group@, root, e),
        decreases 4 - d,
    {
        match neighbour(x, y, d) {
            Some((nx, ny)) => {
                if !in_any_group.contains(nx, ny) && board.get(nx, ny) == color {
                    let ghost seen_a = in_any_group@;
                    let ghost pos_a = group.pos@;
                    let ghost n = (nx as int, ny as int);
                    group.pos.push((nx, ny));
                    in_any_group.insert(nx, ny);
                    let ghost pos_b = group.pos@;
                    proof {
                        in_any_group.lemma_count_bound();
                    }
                    explore_group(nx, ny, color, group, in_any_group, board);
                    proof {
                        let seen_c = in_any_group@;
                        let pos_c = group.pos@;
                        in_any_group.lemma_count_bound();
                        assert(pos_c.take(pos_a.len() as int + 1) =~= pos_b);
                        lemma_fill_goes_on(
                            g,
                            color,
                            seen_a,
                            root,
                            d as int,
                            pos_a,
                            n,
                            seen_c,
                            pos_c,
                        );
                        lemma_grown_through(
                            g,
                            color,
                            root,
                            seen0,
                            pos0,
                            seen_a,
                            pos_a,
                            n,
                            seen_c,
                            pos_c,
                        );
                        assert forall|e: int| 0 <= e < d + 1 implies #[trigger] side_done(
                            g,
                            color,
                            seen_c,
                            root,
                            e,
                        ) by {
                            if e < d {
                                assert(side_done(g, color, seen_a, root, e));
                            }
                        }
                    }
                }
            },
            None => {},
        }
        d += 1;
    }
    proof {
        assert(whole =~= spots(group.pos@));
        assert(side_done(g, color, in_any_group@, root, 0));
        assert(side_done(g, color, in_any_group@, root, 1));
        assert(side_done(g, color, in_any_group@, root, 2));
        assert(side_done(g, color, in_any_group@, root, 3));
        lemma_sides_done(g, color, in_any_group@, root);
    }
}

/// The order of a flood fill, one side on: side `d` of `root` was fresh, it
/// was added after the positions `pos_a`, and the fill from it led to the
/// positions `pos_c` and to the region `seen_c`. Then what the fill adds
/// from side `d` on is what has been added since `pos_a`, and then what it
/// adds from the next side on.
proof fn lemma_fill_goes_on(
    g: Grid,
    color: Cell,
    seen_a: Region,
    root: (int, int),
    d: int,
    pos_a: Seq<(u32, u32)>,
    n: (int, int),
    seen_c: Region,
    pos_c: Seq<(u32, u32)>,
)
    requires
        0 <= d < 4,
        n == beside(root, d),
        fresh(g, color, seen_a, n),
        pos_c.len() > pos_a.len(),
        forall|k: int| 0 <= k < pos_a.len() ==> #[trigger] pos_c[k] == pos_a[k],
        spot(pos_c[pos_a.len() as int]) == n,
        spots(pos_c) == spots(pos_c.take(pos_a.len() as int + 1)) + fill_order(
            g,
            color,
            seen_a.insert(n),
            n,
            0,
        ),
        seen_c == seen_a.insert(n).union(cells_from(pos_c, pos_a.len() as int + 1)),
    ensures
        spots(pos_a) + fill_order(g, color, seen_a, root, d) == spots(pos_c) + fill_order(
            g,
            color,
            seen_c,
            root,
            d + 1,
        ),
{
    let mid = pos_a.len() as int;
    let below = fill_order(g, color, seen_a.insert(n), n, 0);
    let first = seq![n] + below;
    let pos_b = pos_c.take(mid + 1);
    assert(spots(pos_b) =~= spots(pos_a) + seq![n]);
    assert(spots(pos_c) =~= spots(pos_a) + first);
    assert(first.len() == pos_c.len() - pos_a.len());
    assert forall|k: int| 0 <= k < first.len() implies #[trigger] first[k] == spot(
        pos_c[mid + k],
    ) by {
        assert(spots(pos_c)[mid + k] == (spots(pos_a) + first)[mid + k]);
    }
    assert(seen_c =~= seen_a.union(first.to_set())) by {
        assert forall|p: (int, int)| seen_c.contains(p) <==> seen_a.union(
            first.to_set(),
        ).contains(p) by {
            if cells_from(pos_c, mid + 1).contains(p) {
                let k = choose|k: int| mid + 1 <= k < pos_c.len() && #[trigger] spot(pos_c[k]) == p;
                assert(first[k - mid] == p);
                assert(first.contains(p));
            }
            if p == n {
                assert(first[0] == n);
                assert(first.contains(p));
            }
            if first.contains(p) {
                let k = choose|k: int| 0 <= k < first.len() && first[k] == p;
                if k > 0 {
                    assert(spot(pos_c[mid + k]) == p);
                    assert(cells_from(pos_c, mid + 1).contains(p));
                }
            }
        }
    }
    let rest = fill_order(g, color, seen_c, root, d + 1);
    assert(fill_order(g, color, seen_a, root, d) == first + rest);
    assert(spots(pos_a) + (first + rest) =~= spots(pos_c) + rest);
}

/// One step of a flood fill: the fill had grown from `(seen0, pos0)` to
/// `(seen_a, pos_a)`, then added the fresh position `n` next to `root`, and
/// a completed fill from `n` led to `(seen_c, pos_c)`. Then the fill has
/// grown from `(seen0, pos0)` to `(seen_c, pos_c)`, and every new position
/// is surrounded.
proof fn lemma_grown_through(
    g: Grid,
    color: Cell,
    root: (int, int),
    seen0: Region,
    pos0: Seq<(u32, u32)>,
    seen_a: Region,
    pos_a: Seq<(u32, u32)>,
    n: (int, int),
    seen_c: Region,
    pos_c: Seq<(u32, u32)>,
)
    requires
        grown(g, color, root, seen0, pos0, seen_a, pos_a),
        all_surrounded(g, color, seen_a, pos_a, pos0.len() as int),
        fresh(g, color, seen_a, n),
        adjacent(root, n),
        pos_c.len() > pos_a.len(),
        spot(pos_c[pos_a.len() as int]) == n,
        flooded(g, color, n, seen_a.insert(n), pos_c.take(pos_a.len() as int + 1), seen_c, pos_c),
        forall|k: int| 0 <= k < pos_a.len() ==> #[trigger] pos_c[k] == pos_a[k],
    ensures
        grown(g, color, root, seen0, pos0, seen_c, pos_c),
        all_surrounded(g, color, seen_c, pos_c, pos0.len() as int),
        seen_c.contains(n),
        forall|p: (int, int)| seen_a.contains(p) ==> seen_c.contains(p),
{
    let lo = pos0.len() as int;
    let mid = pos_a.len() as int;
    let pos_b = pos_c.take(mid + 1);
    let seen_b = seen_a.insert(n);
    assert(pos_b.len() == mid + 1);
    assert(seen_c == seen_b.union(cells_from(pos_c, mid + 1)));
    assert(seen_a == seen0.union(cells_from(pos_a, lo)));
    // positions listed in `pos_a` are seen in `seen_a`
    assert forall|k: int| lo <= k < mid implies seen_a.contains(#[trigger] spot(pos_c[k])) by {
        assert(pos_c[k] == pos_a[k]);
        assert(cells_from(pos_a, lo).contains(spot(pos_a[k])));
    }
    assert forall|p: (int, int)| seen_c.contains(p) <==> seen0.union(cells_from(pos_c, lo)).contains(
        p,
    ) by {
        if seen_c.contains(p) {
            if cells_from(pos_c, mid + 1).contains(p) {
                let k = choose|k: int| mid + 1 <= k < pos_c.len() && #[trigger] spot(pos_c[k]) == p;
                assert(lo <= k < pos_c.len());
            } else if p == n {
                assert(spot(pos_c[mid]) == p);
            } else if cells_from(pos_a, lo).contains(p) {
                let k = choose|k: int| lo <= k < pos_a.len() && #[trigger] spot(pos_a[k]) == p;
                assert(pos_c[k] == pos_a[k]);
                assert(spot(pos_c[k]) == p);
            }
        }
        if cells_from(pos_c, lo).contains(p) {
            let k = choose|k: int| lo <= k < pos_c.len() && #[trigger] spot(pos_c[k]) == p;
            if k < mid {
                assert(seen_a.contains(spot(pos_c[k])));
            } else if k == mid {
            } else {
                assert(cells_from(pos_c, mid + 1).contains(p));
            }
        }
    }
    assert(seen_c =~= seen0.union(cells_from(pos_c, lo)));
    assert forall|k: int| lo <= k < pos_c.len() implies fresh(
        g,
        color,
        seen0,
        #[trigger] spot(pos_c[k]),
    ) by {
        if k < mid {
            assert(pos_c[k] == pos_a[k]);
            assert(fresh(g, color, seen0, spot(pos_a[k])));
        } else if k == mid {
        } else {
            assert(fresh(g, color, seen_b, spot(pos_c[k])));
        }
    }
    assert forall|j: int, k: int| lo <= j < k < pos_c.len() implies #[trigger] spot(pos_c[j])
        != #[trigger] spot(pos_c[k]) by {
        if k < mid {
            assert(pos_c[k] == pos_a[k]);
            assert(pos_c[j] == pos_a[j]);
            assert(spot(pos_a[j]) != spot(pos_a[k]));
        } else if k == mid {
            assert(seen_a.contains(spot(pos_c[j])));
        } else {
            assert(fresh(g, color, seen_b, spot(pos_c[k])));
            if j < mid {
                assert(seen_a.contains(spot(pos_c[j])));
            } else if j == mid {
            } else {
            }
        }
    }
    assert forall|k: int| lo <= k < pos_c.len() implies #[trigger] hooked(pos_c, lo, k, root) by {
        if k < mid {
            assert(hooked(pos_a, lo, k, root));
            assert(pos_c[k] == pos_a[k]);
            if !adjacent(spot(pos_a[k]), root) {
                let j = choose|j: int|
                    lo <= j < k && #[trigger] adjacent(spot(pos_a[k]), spot(pos_a[j]));
                assert(pos_c[j] == pos_a[j]);
                assert(adjacent(spot(pos_c[k]), spot(pos_c[j])));
            }
        } else if k == mid {
        } else {
            assert(hooked(pos_c, mid + 1, k, n));
            if adjacent(spot(pos_c[k]), n) {
                assert(adjacent(spot(pos_c[k]), spot(pos_c[mid])));
            } else {
                let j = choose|j: int|
                    mid + 1 <= j < k && #[trigger] adjacent(spot(pos_c[k]), spot(pos_c[j]));
                assert(adjacent(spot(pos_c[k]), spot(pos_c[j])));
            }
        }
    }
    assert forall|k: int| lo <= k < pos_c.len() implies surrounded(
        g,
        color,
        seen_c,
        #[trigger] spot(pos_c[k]),
    ) by {
        if k < mid {
            assert(pos_c[k] == pos_a[k]);
            assert(surrounded(g, color, seen_a, spot(pos_a[k])));
        } else if k == mid {
        } else {
            assert(surrounded(g, color, seen_c, spot(pos_c[k])));
        }
    }
}

} // verus!
