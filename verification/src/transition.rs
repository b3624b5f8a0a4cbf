//! Playing a move: removing a set of tiles and letting the rest come to rest.
//!
//! The tiles of the chosen positions are taken off the board. Then, in every
//! column, the remaining tiles fall toward row `0` without changing their
//! order, and finally the columns that still hold a tile close ranks toward
//! column `0`, again without changing their order.

use vstd::prelude::*;
use crate::board::{
    empty_column, in_grid, is_grid, occupancy, population, solid, vacant_column, Board, Cell,
    Grid, SIDE,
};
use crate::region::{all_solid, cells_of, distinct, inside, spot, tile, Region};
use crate::sequences::{
    lemma_filter_none, lemma_filter_origin, lemma_filter_twice, lemma_tally_rows_concat,
    lemma_tally_rows_update, lemma_tally_update,
};

verus! {

/// The grid after the tiles at the positions of `r` have been taken away.
pub open spec fn cleared(g: Grid, r: Region) -> Grid {
    Seq::new(
        SIDE as nat,
        |x: int|
            Seq::new(
                SIDE as nat,
                |y: int|
                    if r.contains((x, y)) {
                        Cell::Empty
                    } else {
                        g[x][y]
                    },
            ),
    )
}

/// A run of `n` empty cells.
pub open spec fn blanks(n: int) -> Seq<Cell> {
    Seq::new(n as nat, |y: int| Cell::Empty)
}

/// The column after its tiles have fallen: the tiles in their order, from
/// row `0` upward, and empty cells above them.
pub open spec fn settled(col: Seq<Cell>) -> Seq<Cell> {
    let kept = col.filter(solid());
    kept + blanks(col.len() - kept.len())
}

/// Every column of the grid after its tiles have fallen.
pub open spec fn settled_grid(g: Grid) -> Grid {
    Seq::new(g.len(), |x: int| settled(g[x]))
}

/// The predicate "the column holds a tile".
pub open spec fn occupied() -> spec_fn(Seq<Cell>) -> bool {
    |col: Seq<Cell>| occupancy(col) > 0
}

/// A run of `n` columns without tiles.
pub open spec fn vacant_columns(n: int) -> Grid {
    Seq::new(n as nat, |x: int| vacant_column())
}

/// The grid after its columns have closed ranks: the columns that hold a
/// tile in their order, from column `0` upward, and empty columns after them.
pub open spec fn packed(g: Grid) -> Grid {
    let kept = g.filter(occupied());
    kept + vacant_columns(g.len() - kept.len())
}

/// The grid after gravity has acted: tiles fall, then columns close ranks.
pub open spec fn dropped(g: Grid) -> Grid {
    packed(settled_grid(g))
}

/// The grid after the move that removes the tiles at the positions of `r`.
pub open spec fn after_move(g: Grid, r: Region) -> Grid {
    dropped(cleared(g, r))
}

/// The grid with the cell at one position emptied.
pub open spec fn poked(g: Grid, p: (int, int)) -> Grid {
    g.update(p.0, g[p.0].update(p.1, Cell::Empty))
}

// ---------------------------------------------------------------------------
// Columns
// ---------------------------------------------------------------------------

/// A run of empty cells holds no tile.
pub proof fn lemma_blanks_hold_nothing(n: int)
    ensures
        blanks(n).filter(solid()) == Seq::<Cell>::empty(),
{
    lemma_filter_none(blanks(n), solid());
}

/// Falling keeps the height of a column, its tiles and their order.
pub proof fn lemma_settled_keeps_tiles(col: Seq<Cell>)
    ensures
        settled(col).len() == col.len(),
        settled(col).filter(solid()) == col.filter(solid()),
        occupancy(settled(col)) == occupancy(col),
{
    let kept = col.filter(solid());
    let pad = blanks(col.len() - kept.len());
    col.lemma_filter_len(solid());
    Seq::filter_distributes_over_add(kept, pad, solid());
    lemma_filter_twice(col, solid());
    lemma_blanks_hold_nothing(col.len() - kept.len());
    assert(kept + Seq::<Cell>::empty() =~= kept);
}

/// A column whose tiles have fallen stays as it is when they fall again.
pub proof fn lemma_settled_twice(col: Seq<Cell>)
    ensures
        settled(settled(col)) == settled(col),
{
    lemma_settled_keeps_tiles(col);
}

/// The column without tiles stays as it is.
pub proof fn lemma_settled_vacant()
    ensures
        settled(vacant_column()) == vacant_column(),
        occupancy(vacant_column()) == 0,
{
    lemma_filter_none(vacant_column(), solid());
    assert(settled(vacant_column()) =~= vacant_column());
}

/// Each cell of a settled column is empty or a tile that stood at the same
/// height or higher in the column before.
pub proof fn lemma_settled_origin(col: Seq<Cell>, y: int) -> (sy: int)
    requires
        0 <= y < col.len(),
        settled(col)[y] != Cell::Empty,
    ensures
        y <= sy < col.len(),
        col[sy] == settled(col)[y],
{
    let kept = col.filter(solid());
    col.lemma_filter_len(solid());
    lemma_filter_origin(col, solid(), y)
}

/// Emptying a cell that holds a tile takes one tile off the column.
pub proof fn lemma_occupancy_after_poke(col: Seq<Cell>, y: int)
    requires
        0 <= y < col.len(),
        col[y] != Cell::Empty,
    ensures
        occupancy(col.update(y, Cell::Empty)) + 1 == occupancy(col),
{
    lemma_tally_update(col, y, Cell::Empty, solid());
}

// ---------------------------------------------------------------------------
// Grids
// ---------------------------------------------------------------------------

/// Columns without tiles hold no tile.
pub proof fn lemma_population_vacant(n: int)
    requires
        n >= 0,
    ensures
        population(vacant_columns(n)) == 0,
    decreases n,
{
    if n > 0 {
        lemma_population_vacant(n - 1);
        lemma_settled_vacant();
        assert(vacant_columns(n).drop_last() =~= vacant_columns(n - 1));
    }
}

/// Leaving out the columns without tiles loses no tile.
pub proof fn lemma_population_of_occupied(g: Grid)
    ensures
        population(g.filter(occupied())) == population(g),
    decreases g.len(),
{
    reveal(Seq::filter);
    if g.len() > 0 {
        lemma_population_of_occupied(g.drop_last());
        let rest = g.drop_last().filter(occupied());
        if occupied()(g.last()) {
            assert(rest.push(g.last()).drop_last() =~= rest);
        }
    }
}

/// Closing ranks keeps the number of columns and of tiles.
pub proof fn lemma_packed_keeps_tiles(g: Grid)
    ensures
        packed(g).len() == g.len(),
        population(packed(g)) == population(g),
{
    let kept = g.filter(occupied());
    g.lemma_filter_len(occupied());
    lemma_tally_rows_concat(kept, vacant_columns(g.len() - kept.len()), solid());
    lemma_population_vacant(g.len() - kept.len());
    lemma_population_of_occupied(g);
}

/// Falling keeps the number of tiles of a grid.
pub proof fn lemma_settled_grid_keeps_tiles(g: Grid)
    ensures
        population(settled_grid(g)) == population(g),
    decreases g.len(),
{
    if g.len() > 0 {
        lemma_settled_grid_keeps_tiles(g.drop_last());
        lemma_settled_keeps_tiles(g.last());
        assert(settled_grid(g).drop_last() =~= settled_grid(g.drop_last()));
    }
}

/// Each column of a grid under gravity is a settled column of the grid
/// before, from the same place or from further out, or it holds no tile.
pub proof fn lemma_dropped_column_origin(g: Grid, x: int) -> (sx: int)
    requires
        0 <= x < g.len(),
        dropped(g)[x] != vacant_column(),
    ensures
        x <= sx < g.len(),
        dropped(g)[x] == settled(g[sx]),
        occupancy(g[sx]) > 0,
{
    let s = settled_grid(g);
    let kept = s.filter(occupied());
    s.lemma_filter_len(occupied());
    let sx = lemma_filter_origin(s, occupied(), x);
    lemma_settled_keeps_tiles(g[sx]);
    sx
}

/// Gravity keeps the dimensions of a grid.
pub proof fn lemma_dropped_is_grid(g: Grid)
    requires
        is_grid(g),
    ensures
        is_grid(dropped(g)),
{
    let s = settled_grid(g);
    s.lemma_filter_len(occupied());
    assert forall|x: int| 0 <= x < SIDE implies (#[trigger] dropped(g)[x]).len() == SIDE by {
        if dropped(g)[x] != vacant_column() {
            let sx = lemma_dropped_column_origin(g, x);
            lemma_settled_keeps_tiles(g[sx]);
        }
    }
}

/// Gravity keeps the number of tiles.
pub proof fn lemma_dropped_keeps_tiles(g: Grid)
    ensures
        population(dropped(g)) == population(g),
{
    lemma_packed_keeps_tiles(settled_grid(g));
    lemma_settled_grid_keeps_tiles(g);
}

/// Gravity acts once: on a grid that it has already acted on, nothing
/// moves any more.
pub proof fn lemma_dropped_twice(g: Grid)
    ensures
        dropped(dropped(g)) == dropped(g),
{
    let s = settled_grid(g);
    let kept = s.filter(occupied());
    let pad = vacant_columns(s.len() - kept.len());
    let h = dropped(g);
    s.lemma_filter_len(occupied());
    assert(h == kept + pad);
    // falling changes no column of `h`
    assert forall|x: int| 0 <= x < h.len() implies settled(#[trigger] h[x]) == h[x] by {
        if x < kept.len() {
            let sx = lemma_filter_origin(s, occupied(), x);
            lemma_settled_twice(g[sx]);
        } else {
            lemma_settled_vacant();
        }
    }
    assert(settled_grid(h) =~= h);
    // closing ranks changes nothing either
    lemma_filter_twice(s, occupied());
    assert forall|i: int| 0 <= i < pad.len() implies !occupied()(#[trigger] pad[i]) by {
        lemma_settled_vacant();
    }
    lemma_filter_none(pad, occupied());
    Seq::filter_distributes_over_add(kept, pad, occupied());
    assert(kept + Seq::<Seq<Cell>>::empty() =~= kept);
    assert(h.filter(occupied()) == kept);
}

/// Falling alone acts once.
pub proof fn lemma_settled_grid_twice(g: Grid)
    ensures
        settled_grid(settled_grid(g)) == settled_grid(g),
{
    assert forall|x: int| 0 <= x < g.len() implies settled(settled(#[trigger] g[x])) == settled(
        g[x],
    ) by {
        lemma_settled_twice(g[x]);
    }
    assert(settled_grid(settled_grid(g)) =~= settled_grid(g));
}

/// Closing ranks alone acts once.
pub proof fn lemma_packed_twice(g: Grid)
    ensures
        packed(packed(g)) == packed(g),
{
    let kept = g.filter(occupied());
    let pad = vacant_columns(g.len() - kept.len());
    g.lemma_filter_len(occupied());
    lemma_filter_twice(g, occupied());
    assert forall|i: int| 0 <= i < pad.len() implies !occupied()(#[trigger] pad[i]) by {
        lemma_settled_vacant();
    }
    lemma_filter_none(pad, occupied());
    Seq::filter_distributes_over_add(kept, pad, occupied());
    assert(kept + Seq::<Seq<Cell>>::empty() =~= kept);
}

/// Emptying a cell that holds a tile takes one tile off the grid.
pub proof fn lemma_population_after_poke(g: Grid, p: (int, int))
    requires
        0 <= p.0 < g.len(),
        0 <= p.1 < g[p.0].len(),
        tile(g, p) != Cell::Empty,
    ensures
        population(poked(g, p)) + 1 == population(g),
{
    lemma_occupancy_after_poke(g[p.0], p.1);
    lemma_tally_rows_update(g, p.0, g[p.0].update(p.1, Cell::Empty), solid());
}

/// Removing tiles at distinct positions takes exactly that many tiles off
/// the grid.
pub proof fn lemma_cleared_population(g: Grid, pos: Seq<(u32, u32)>)
    requires
        is_grid(g),
        inside(pos),
        distinct(pos),
        all_solid(g, pos),
    ensures
        is_grid(cleared(g, cells_of(pos))),
        population(cleared(g, cells_of(pos))) + pos.len() == population(g),
    decreases pos.len(),
{
    if pos.len() == 0 {
        assert forall|x: int| 0 <= x < SIDE implies #[trigger] cleared(g, cells_of(pos))[x]
            == g[x] by {
            assert(cleared(g, cells_of(pos))[x] =~= g[x]);
        }
        assert(cleared(g, cells_of(pos)) =~= g);
    } else {
        let rest = pos.drop_last();
        let p = spot(pos.last());
        lemma_cleared_population(g, rest);
        let before = cleared(g, cells_of(rest));
        let after = cleared(g, cells_of(pos));
        assert(in_grid(p)) by {
            assert(p == spot(pos[pos.len() - 1]));
        }
        assert(!cells_of(rest).contains(p)) by {
            if cells_of(rest).contains(p) {
                let i = choose|i: int| 0 <= i < rest.len() && #[trigger] spot(rest[i]) == p;
                assert(spot(pos[i]) == spot(pos[pos.len() - 1]));
            }
        }
        assert(tile(before, p) == tile(g, p));
        assert(tile(g, p) != Cell::Empty) by {
            assert(p == spot(pos[pos.len() - 1]));
        }
        assert forall|x: int, y: int| 0 <= x < SIDE && 0 <= y < SIDE implies poked(
            before,
            p,
        )[x][y] == #[trigger] after[x][y] by {
            if cells_of(pos).contains((x, y)) {
                let i = choose|i: int| 0 <= i < pos.len() && #[trigger] spot(pos[i]) == (x, y);
                if i < rest.len() {
                    assert(spot(rest[i]) == (x, y));
                    assert(cells_of(rest).contains((x, y)));
                }
            } else {
                if cells_of(rest).contains((x, y)) {
                    let i = choose|i: int| 0 <= i < rest.len() && #[trigger] spot(rest[i]) == (x, y);
                    assert(spot(pos[i]) == (x, y));
                }
                assert((x, y) != p) by {
                    assert(spot(pos[pos.len() - 1]) == p);
                }
            }
        }
        assert forall|x: int| 0 <= x < SIDE implies #[trigger] poked(before, p)[x] == after[x] by {
            assert(poked(before, p)[x] =~= after[x]);
        }
        assert(poked(before, p) =~= after);
        lemma_population_after_poke(before, p);
    }
}

// ---------------------------------------------------------------------------
// Moves
// ---------------------------------------------------------------------------

/// A move takes as many tiles off the board as it removes positions, and
/// leaves a board of the same dimensions.
pub proof fn lemma_move_population(g: Grid, pos: Seq<(u32, u32)>)
    requires
        is_grid(g),
        inside(pos),
        distinct(pos),
        all_solid(g, pos),
    ensures
        is_grid(after_move(g, cells_of(pos))),
        population(after_move(g, cells_of(pos))) + pos.len() == population(g),
{
    lemma_cleared_population(g, pos);
    lemma_dropped_is_grid(cleared(g, cells_of(pos)));
    lemma_dropped_keeps_tiles(cleared(g, cells_of(pos)));
}

/// Whatever tile stands at a position after a move stood, before the move,
/// at a position that was not removed, in the same column or further out
/// and at the same height or higher. So a removed position never shows its
/// own old tile again: if it holds a tile, that tile has come from elsewhere.
pub proof fn lemma_move_refills_from_elsewhere(g: Grid, r: Region, p: (int, int)) -> (src: (
    int,
    int,
))
    requires
        is_grid(g),
        in_grid(p),
        tile(after_move(g, r), p) != Cell::Empty,
    ensures
        in_grid(src),
        !r.contains(src),
        tile(g, src) == tile(after_move(g, r), p),
        src.0 >= p.0,
        src.1 >= p.1,
        r.contains(p) ==> src != p,
{
    let c = cleared(g, r);
    assert(vacant_column()[p.1] == Cell::Empty);
    let sx = lemma_dropped_column_origin(c, p.0);
    let sy = lemma_settled_origin(c[sx], p.1);
    (sx, sy)
}

/// Lets the tiles of one column fall. Returns the settled column and the
/// number of tiles in it.
pub fn settle_column(col: &Vec<Cell>) -> (r: (Vec<Cell>, usize))
    ensures
        r.0@ == settled(col@),
        r.1 == occupancy(col@),
{
    let n: usize = col.len();
    let mut out: Vec<Cell> = Vec::new();
    let mut y: usize = 0;
    while y < n
        invariant
            n == col@.len(),
            y <= n,
            out@ == col@.take(y as int).filter(solid()),
        decreases n - y,
    {
        proof {
            col@.lemma_take_succ_push(y as int);
            col@.take(y as int).lemma_filter_push(col@[y as int], solid());
        }
        if col[y] != Cell::Empty {
            out.push(col[y]);
        }
        y += 1;
    }
    proof {
        col@.lemma_take_len();
        col@.lemma_filter_len(solid());
    }
    let kept: usize = out.len();
    while out.len() < n
        invariant
            kept <= out@.len() <= n,
            n == col@.len(),
            kept == col@.filter(solid()).len(),
            out@ == col@.filter(solid()) + blanks(out@.len() - kept),
        decreases n - out@.len(),
    {
        out.push(Cell::Empty);
        assert(out@ =~= col@.filter(solid()) + blanks(out@.len() - kept));
    }
    (out, kept)
}

/// The columns that a vector of columns stands for.
pub open spec fn columns(v: Seq<Vec<Cell>>) -> Grid {
    Seq::new(v.len(), |x: int| v[x]@)
}

/// Takes the tiles at the listed positions off the board. Positions outside
/// the grid are passed over.
pub fn board_depop(board: &Board, pos: &Vec<(u32, u32)>) -> (r: Board)
    requires
        board.wf(),
    ensures
        r.wf(),
        r@ == cleared(board@, cells_of(pos@)),
{
    let mut out = board.duplicate();
    let mut k: usize = 0;
    while k < pos.len()
        invariant
            board.wf(),
            out.wf(),
            k <= pos@.len(),
            forall|x: int, y: int|
                0 <= x < SIDE && 0 <= y < SIDE ==> #[trigger] out@[x][y] == (if exists|i: int|
                    0 <= i < k && #[trigger] spot(pos@[i]) == (x, y) {
                    Cell::Empty
                } else {
                    board@[x][y]
                }),
        decreases pos@.len() - k,
    {
        let (px, py) = pos[k];
        if px < 15 && py < 15 {
            let ghost before = out@;
            assert(out@[px as int].len() == SIDE);
            out.cols[px as usize][py as usize] = Cell::Empty;
            assert(out@ =~= before.update(px as int, before[px as int].update(py as int, Cell::Empty)));
            assert forall|x: int| 0 <= x < SIDE implies (#[trigger] out@[x]).len() == SIDE by {
                assert(before[x].len() == SIDE);
            }
        }
        proof {
            assert(spot(pos@[k as int]) == (px as int, py as int));
        }
        k += 1;
    }
    proof {
        let target = cleared(board@, cells_of(pos@));
        assert forall|x: int| 0 <= x < SIDE implies #[trigger] out@[x] == target[x] by {
            assert forall|y: int| 0 <= y < SIDE implies #[trigger] out@[x][y] == target[x][y] by {}
            assert(out@[x].len() == SIDE);
            assert(out@[x] =~= target[x]);
        }
        assert(out@ =~= target);
    }
    out
}

/// Lets gravity act on the board: the tiles of every column fall toward
/// row `0`, then the columns that hold a tile close ranks toward column `0`.
pub fn board_drop(board: &Board) -> (r: Board)
    requires
        board.wf(),
    ensures
        r.wf(),
        r@ == dropped(board@),
{
    let ghost s = settled_grid(board@);
    let mut cols: Vec<Vec<Cell>> = Vec::new();
    let mut x: usize = 0;
    while x < SIDE
        invariant
            board.wf(),
            s == settled_grid(board@),
            x <= SIDE,
            columns(cols@) == s.take(x as int).filter(occupied()),
        decreases SIDE - x,
    {
        let (col, count) = settle_column(&board.cols[x]);
        proof {
            s.lemma_take_succ_push(x as int);
            s.take(x as int).lemma_filter_push(s[x as int], occupied());
            lemma_settled_keeps_tiles(board@[x as int]);
        }
        let ghost before = columns(cols@);
        if count > 0 {
            cols.push(col);
            assert(columns(cols@) =~= before.push(s[x as int]));
        }
        x += 1;
    }
    proof {
        s.lemma_take_len();
        s.lemma_filter_len(occupied());
    }
    let kept: usize = cols.len();
    while cols.len() < SIDE
        invariant
            kept <= cols@.len() <= SIDE,
            s.len() == SIDE,
            kept == s.filter(occupied()).len(),
            columns(cols@) == s.filter(occupied()) + vacant_columns(cols@.len() - kept),
        decreases SIDE - cols@.len(),
    {
        let col = empty_column();
        let ghost before = columns(cols@);
        cols.push(col);
        assert(columns(cols@) =~= before.push(vacant_column()));
        assert(before.push(vacant_column()) =~= s.filter(occupied()) + vacant_columns(
            cols@.len() - kept,
        ));
    }
    let r = Board { cols };
    proof {
        assert(r@ =~= columns(r.cols@));
        lemma_dropped_is_grid(board@);
    }
    r
}

/// Plays the move that removes the tiles at the listed positions: the tiles
/// are taken off the board, then gravity acts.
pub fn transition(board: &Board, pos: &Vec<(u32, u32)>) -> (r: Board)
    requires
        board.wf(),
    ensures
        r.wf(),
        r@ == after_move(board@, cells_of(pos@)),
{
    let bare = board_depop(board, pos);
    board_drop(&bare)
}

} // verus!
