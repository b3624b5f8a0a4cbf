//! Sets of grid positions.

use vstd::prelude::*;
use crate::board::{in_grid, Cell, Grid, AREA, SIDE};
use crate::sequences::{
    lemma_tally_rows_bound, lemma_tally_rows_update, lemma_tally_update, tally_rows,
};

verus! {

/// Mathematical model of a set of positions: pairs of column and row.
pub type Region = Set<(int, int)>;

/// The position that a stored coordinate pair stands for.
pub open spec fn spot(c: (u32, u32)) -> (int, int) {
    (c.0 as int, c.1 as int)
}

/// The positions listed in `pos`.
pub open spec fn cells_of(pos: Seq<(u32, u32)>) -> Region {
    Set::new(|p: (int, int)| exists|i: int| 0 <= i < pos.len() && #[trigger] spot(pos[i]) == p)
}

/// No position is listed twice.
pub open spec fn distinct(pos: Seq<(u32, u32)>) -> bool {
    forall|i: int, j: int| 0 <= i < j < pos.len() ==> #[trigger] spot(pos[i]) != #[trigger] spot(pos[j])
}

/// Every listed position lies inside the grid.
pub open spec fn inside(pos: Seq<(u32, u32)>) -> bool {
    forall|i: int| 0 <= i < pos.len() ==> in_grid(#[trigger] spot(pos[i]))
}

/// Every listed position holds a tile on the grid.
pub open spec fn all_solid(g: Grid, pos: Seq<(u32, u32)>) -> bool {
    forall|i: int| 0 <= i < pos.len() ==> tile(g, #[trigger] spot(pos[i])) != Cell::Empty
}

/// The cell of a grid at a position.
pub open spec fn tile(g: Grid, p: (int, int)) -> Cell {
    g[p.0][p.1]
}

/// The predicate "is marked".
pub open spec fn marked() -> spec_fn(bool) -> bool {
    |b: bool| b
}

/// A set of grid positions, kept as one mark per position.
#[derive(Debug)]
pub struct CellSet {
    /// The marks, column by column, each column from row `0` upward.
    pub marks: Vec<Vec<bool>>,
}

impl View for CellSet {
    type V = Region;

    open spec fn view(&self) -> Region {
        Set::new(|p: (int, int)| in_grid(p) && self.marks@[p.0]@[p.1])
    }
}

impl CellSet {
    /// The marks, column by column.
    pub open spec fn table(&self) -> Seq<Seq<bool>> {
        Seq::new(self.marks@.len(), |x: int| self.marks@[x]@)
    }

    /// There is one mark for every position of the grid.
    pub open spec fn wf(&self) -> bool {
        &&& self.marks@.len() == SIDE
        &&& forall|x: int| 0 <= x < SIDE ==> (#[trigger] self.marks@[x])@.len() == SIDE
    }

    /// Number of positions in the set.
    pub open spec fn count(&self) -> nat {
        tally_rows(self.table(), marked())
    }

    /// A set holds at most as many positions as the grid has.
    pub proof fn lemma_count_bound(&self)
        requires
            self.wf(),
        ensures
            self.count() <= AREA,
    {
        lemma_tally_rows_bound(self.table(), SIDE as nat, marked());
    }

    /// The set without any position.
    pub fn new() -> (s: CellSet)
        ensures
            s.wf(),
            s@ == Set::<(int, int)>::empty(),
    {
        let mut marks: Vec<Vec<bool>> = Vec::new();
        let mut x: usize = 0;
        while x < SIDE
            invariant
                x <= SIDE,
                marks@.len() == x,
                forall|i: int| 0 <= i < x ==> (#[trigger] marks@[i])@.len() == SIDE,
                forall|i: int, j: int| 0 <= i < x && 0 <= j < SIDE ==> !(#[trigger] marks@[i]@[j]),
            decreases SIDE - x,
        {
            let mut col: Vec<bool> = Vec::new();
            let mut y: usize = 0;
            while y < SIDE
                invariant
                    y <= SIDE,
                    col@.len() == y,
                    forall|j: int| 0 <= j < y ==> !(#[trigger] col@[j]),
                decreases SIDE - y,
            {
                col.push(false);
                y += 1;
            }
            marks.push(col);
            x += 1;
        }
        let s = CellSet { marks };
        assert(s@ =~= Set::<(int, int)>::empty());
        s
    }

    /// Whether the position of column `x`, row `y` is in the set. No
    /// position outside the grid is.
    pub fn contains(&self, x: u32, y: u32) -> (r: bool)
        requires
            self.wf(),
        ensures
            r == self@.contains((x as int, y as int)),
    {
        if x < 15 && y < 15 {
            self.marks[x as usize][y as usize]
        } else {
            false
        }
    }

    /// Puts the position of column `x`, row `y` into the set. Returns
    /// whether it was not in the set before.
    pub fn insert(&mut self, x: u32, y: u32) -> (r: bool)
        requires
            old(self).wf(),
            x < SIDE,
            y < SIDE,
        ensures
            final(self).wf(),
            final(self)@ == old(self)@.insert((x as int, y as int)),
            r == !old(self)@.contains((x as int, y as int)),
            final(self).count() == old(self).count() + (if r {
                1nat
            } else {
                0nat
            }),
    {
        let was = self.marks[x as usize][y as usize];
        let ghost before = self.table();
        self.marks[x as usize][y as usize] = true;
        proof {
            let col = before[x as int];
            assert(self.table() =~= before.update(x as int, col.update(y as int, true)));
            lemma_tally_update(col, y as int, true, marked());
            lemma_tally_rows_update(before, x as int, col.update(y as int, true), marked());
            assert(self@ =~= old(self)@.insert((x as int, y as int)));
        }
        !was
    }
}

} // verus!
