//! The playing field: a square grid of coloured tiles.
//!
//! A board is stored column by column. Inside a column, row `0` is the
//! settled edge (the floor on which tiles come to rest) and row `SIDE - 1`
//! is the top. Columns are packed toward column `0`.

use vstd::prelude::*;
use crate::sequences::{lemma_tally_rows_bound, tally, tally_rows};

verus! {

/// Number of columns, and of rows, of every board.
pub const SIDE: usize = 15;

/// Number of cells of a board.
pub const AREA: usize = 225;

/// Content of one position of the grid.
#[derive(Clone, Copy, PartialEq, Eq, Structural, Debug)]
pub enum Cell {
    Empty,
    Red,
    Green,
    Blue,
    Yellow,
    Purple,
}

impl Cell {
    /// Position of the cell value in the palette; `Empty` comes last.
    pub open spec fn palette_index(self) -> int {
        match self {
            Cell::Red => 0,
            Cell::Green => 1,
            Cell::Blue => 2,
            Cell::Yellow => 3,
            Cell::Purple => 4,
            Cell::Empty => 5,
        }
    }

    /// The cell value that an integer colour code stands for: `0` to `4`
    /// are the five colours, every other code is an empty position.
    pub open spec fn of_code(code: int) -> Cell {
        if code == 0 {
            Cell::Red
        } else if code == 1 {
            Cell::Green
        } else if code == 2 {
            Cell::Blue
        } else if code == 3 {
            Cell::Yellow
        } else if code == 4 {
            Cell::Purple
        } else {
            Cell::Empty
        }
    }

    /// The place of the cell value in the palette.
    pub fn index(self) -> (i: u8)
        ensures
            i == self.palette_index(),
    {
        match self {
            Cell::Red => 0,
            Cell::Green => 1,
            Cell::Blue => 2,
            Cell::Yellow => 3,
            Cell::Purple => 4,
            Cell::Empty => 5,
        }
    }

    /// The cell value that a colour code stands for.
    pub fn from_code(code: i32) -> (c: Cell)
        ensures
            c == Cell::of_code(code as int),
    {
        if code == 0 {
            Cell::Red
        } else if code == 1 {
            Cell::Green
        } else if code == 2 {
            Cell::Blue
        } else if code == 3 {
            Cell::Yellow
        } else if code == 4 {
            Cell::Purple
        } else {
            Cell::Empty
        }
    }

    /// Whether the cell holds no tile.
    pub fn is_empty(self) -> (r: bool)
        ensures
            r == (self == Cell::Empty),
    {
        self == Cell::Empty
    }
}

/// Mathematical model of a board: `grid[x][y]` is the cell in column `x`,
/// row `y`.
pub type Grid = Seq<Seq<Cell>>;

/// A grid has the fixed dimensions.
pub open spec fn is_grid(g: Grid) -> bool {
    &&& g.len() == SIDE
    &&& forall|x: int| 0 <= x < SIDE ==> (#[trigger] g[x]).len() == SIDE
}

/// A coordinate pair lies inside the grid.
pub open spec fn in_grid(p: (int, int)) -> bool {
    0 <= p.0 < SIDE && 0 <= p.1 < SIDE
}

/// The column without any tile.
pub open spec fn vacant_column() -> Seq<Cell> {
    Seq::new(SIDE as nat, |y: int| Cell::Empty)
}

/// The grid without any tile.
pub open spec fn vacant_grid() -> Grid {
    Seq::new(SIDE as nat, |x: int| vacant_column())
}

/// Every position of the grid is empty.
pub open spec fn is_clear(g: Grid) -> bool {
    forall|x: int, y: int| 0 <= x < SIDE && 0 <= y < SIDE ==> (#[trigger] g[x][y]) == Cell::Empty
}

/// The predicate "holds a tile".
pub open spec fn solid() -> spec_fn(Cell) -> bool {
    |c: Cell| c != Cell::Empty
}

/// Number of tiles in a column.
pub open spec fn occupancy(col: Seq<Cell>) -> nat {
    tally(col, solid())
}

/// Number of tiles on a grid.
pub open spec fn population(g: Grid) -> nat {
    tally_rows(g, solid())
}

/// Canonical encoding of a grid: the palette index of every cell, column by
/// column, each column from the settled edge upward.
pub open spec fn encoding(g: Grid) -> Seq<u8> {
    Seq::new(AREA as nat, |i: int| g[i / 15][i % 15].palette_index() as u8)
}

/// The encoding tells grids apart: two grids with the same encoding hold
/// the same cells.
pub proof fn lemma_encoding_injective(a: Grid, b: Grid)
    requires
        is_grid(a),
        is_grid(b),
        encoding(a) == encoding(b),
    ensures
        a == b,
{
    assert forall|x: int| 0 <= x < SIDE implies #[trigger] a[x] == b[x] by {
        assert forall|y: int| 0 <= y < SIDE implies a[x][y] == b[x][y] by {
            let i = x * 15 + y;
            assert(i / 15 == x && i % 15 == y);
            assert(encoding(a)[i] == a[x][y].palette_index() as u8);
            assert(encoding(b)[i] == b[x][y].palette_index() as u8);
        }
        assert(a[x].len() == b[x].len());
        assert(a[x] =~= b[x]);
    }
    assert(a =~= b);
}

/// A board holds at most as many tiles as it has cells.
pub proof fn lemma_population_bound(g: Grid)
    requires
        is_grid(g),
    ensures
        population(g) <= AREA,
{
    lemma_tally_rows_bound(g, SIDE as nat, solid());
}

/// A board of the puzzle.
#[derive(Debug)]
pub struct Board {
    /// The columns, each from row `0` upward.
    pub cols: Vec<Vec<Cell>>,
}

impl View for Board {
    type V = Grid;

    open spec fn view(&self) -> Grid {
        Seq::new(self.cols@.len(), |x: int| self.cols@[x]@)
    }
}

impl Board {
    /// The board has the fixed dimensions.
    pub open spec fn wf(&self) -> bool {
        is_grid(self@)
    }

    /// The cell in column `x`, row `y`.
    pub fn get(&self, x: u32, y: u32) -> (c: Cell)
        requires
            self.wf(),
            x < SIDE,
            y < SIDE,
        ensures
            c == self@[x as int][y as int],
    {
        assert(self@[x as int].len() == SIDE);
        self.cols[x as usize][y as usize]
    }

    /// The board without any tile.
    pub fn empty() -> (b: Board)
        ensures
            b.wf(),
            b@ == vacant_grid(),
    {
        let mut cols: Vec<Vec<Cell>> = Vec::new();
        let mut x: usize = 0;
        while x < SIDE
            invariant
                x <= SIDE,
                cols@.len() == x,
                forall|i: int| 0 <= i < x ==> (#[trigger] cols@[i])@ == vacant_column(),
            decreases SIDE - x,
        {
            let col = empty_column();
            cols.push(col);
            x += 1;
        }
        let b = Board { cols };
        assert(b@ =~= vacant_grid());
        b
    }

    /// Builds a board from rows of colour codes as they are written down:
    /// the first row is the top of the board, the last one the settled
    /// edge; inside a row the codes go from column `0` upward. There must
    /// be exactly `SIDE` rows of at least `SIDE` codes each; codes past the
    /// first `SIDE` of a row are not looked at.
    pub fn from_rows(rows: &Vec<Vec<i32>>) -> (r: Option<Board>)
        ensures
            r is Some <==> rows_fit(rows.deep_view()),
            r matches Some(b) ==> b.wf() && b@ == grid_of_rows(rows.deep_view()),
    {
        let ghost codes = rows.deep_view();
        assert(codes.len() == rows@.len());
        assert(forall|i: int| 0 <= i < rows@.len() ==> (#[trigger] codes[i]) == rows@[i]@);
        if rows.len() != SIDE {
            return None;
        }
        let mut r: usize = 0;
        while r < SIDE
            invariant
                r <= SIDE,
                rows@.len() == SIDE,
                codes == rows.deep_view(),
                forall|i: int| 0 <= i < rows@.len() ==> (#[trigger] codes[i]) == rows@[i]@,
                forall|i: int| 0 <= i < r ==> (#[trigger] codes[i]).len() >= SIDE,
            decreases SIDE - r,
        {
            if rows[r].len() < SIDE {
                assert(codes[r as int].len() < SIDE);
                return None;
            }
            r += 1;
        }
        let mut cols: Vec<Vec<Cell>> = Vec::new();
        let mut x: usize = 0;
        while x < SIDE
            invariant
                x <= SIDE,
                rows@.len() == SIDE,
                codes == rows.deep_view(),
                forall|i: int| 0 <= i < rows@.len() ==> (#[trigger] codes[i]) == rows@[i]@,
                forall|i: int| 0 <= i < SIDE ==> (#[trigger] codes[i]).len() >= SIDE,
                cols@.len() == x,
                forall|i: int| 0 <= i < x ==> (#[trigger] cols@[i])@ == grid_of_rows(codes)[i],
            decreases SIDE - x,
        {
            let mut col: Vec<Cell> = Vec::new();
            let mut y: usize = 0;
            while y < SIDE
                invariant
                    y <= SIDE,
                    x < SIDE,
                    rows@.len() == SIDE,
                    codes == rows.deep_view(),
                    forall|i: int| 0 <= i < rows@.len() ==> (#[trigger] codes[i]) == rows@[i]@,
                    forall|i: int| 0 <= i < SIDE ==> (#[trigger] codes[i]).len() >= SIDE,
                    col@.len() == y,
                    forall|j: int|
                        0 <= j < y ==> (#[trigger] col@[j]) == Cell::of_code(
                            codes[SIDE - 1 - j][x as int] as int,
                        ),
                decreases SIDE - y,
            {
                let row = &rows[SIDE - 1 - y];
                assert(codes[SIDE - 1 - y] == row@);
                col.push(Cell::from_code(row[x]));
                y += 1;
            }
            assert(col@ =~= grid_of_rows(codes)[x as int]);
            cols.push(col);
            x += 1;
        }
        let b = Board { cols };
        assert(b@ =~= grid_of_rows(codes));
        Some(b)
    }

    /// Whether no tile is left on the board.
    pub fn is_clear(&self) -> (r: bool)
        requires
            self.wf(),
        ensures
            r == is_clear(self@),
    {
        let mut x: usize = 0;
        while x < SIDE
            invariant
                self.wf(),
                x <= SIDE,
                forall|i: int, j: int|
                    0 <= i < x && 0 <= j < SIDE ==> (#[trigger] self@[i][j]) == Cell::Empty,
            decreases SIDE - x,
        {
            let mut y: usize = 0;
            while y < SIDE
                invariant
                    self.wf(),
                    x < SIDE,
                    y <= SIDE,
                    forall|i: int, j: int|
                        0 <= i < x && 0 <= j < SIDE ==> (#[trigger] self@[i][j]) == Cell::Empty,
                    forall|j: int| 0 <= j < y ==> (#[trigger] self@[x as int][j]) == Cell::Empty,
                decreases SIDE - y,
            {
                assert(self@[x as int].len() == SIDE);
                if self.cols[x][y] != Cell::Empty {
                    assert(self@[x as int][y as int] != Cell::Empty);
                    return false;
                }
                y += 1;
            }
            x += 1;
        }
        true
    }

    /// The canonical encoding of the board, the key under which a search
    /// remembers it.
    pub fn key(&self) -> (k: Vec<u8>)
        requires
            self.wf(),
        ensures
            k@ == encoding(self@),
    {
        let mut k: Vec<u8> = Vec::new();
        let mut x: usize = 0;
        while x < SIDE
            invariant
                self.wf(),
                x <= SIDE,
                k@.len() == x * 15,
                forall|i: int| 0 <= i < k@.len() ==> (#[trigger] k@[i]) == encoding(self@)[i],
            decreases SIDE - x,
        {
            let mut y: usize = 0;
            while y < SIDE
                invariant
                    self.wf(),
                    x < SIDE,
                    y <= SIDE,
                    k@.len() == x * 15 + y,
                    forall|i: int| 0 <= i < k@.len() ==> (#[trigger] k@[i]) == encoding(self@)[i],
                decreases SIDE - y,
            {
                assert(self@[x as int].len() == SIDE);
                let ghost i = x * 15 + y;
                assert(i / 15 == x && i % 15 == y);
                k.push(self.cols[x][y].index());
                y += 1;
            }
            x += 1;
        }
        assert(k@ =~= encoding(self@));
        k
    }

    /// A copy of the board.
    pub fn duplicate(&self) -> (b: Board)
        requires
            self.wf(),
        ensures
            b.wf(),
            b@ == self@,
    {
        let mut cols: Vec<Vec<Cell>> = Vec::new();
        let mut x: usize = 0;
        while x < SIDE
            invariant
                self.wf(),
                x <= SIDE,
                cols@.len() == x,
                forall|i: int| 0 <= i < x ==> (#[trigger] cols@[i])@ == self@[i],
            decreases SIDE - x,
        {
            let mut col: Vec<Cell> = Vec::new();
            let mut y: usize = 0;
            while y < SIDE
                invariant
                    self.wf(),
                    x < SIDE,
                    y <= SIDE,
                    col@.len() == y,
                    forall|j: int| 0 <= j < y ==> (#[trigger] col@[j]) == self@[x as int][j],
                decreases SIDE - y,
            {
                assert(self@[x as int].len() == SIDE);
                col.push(self.cols[x][y]);
                y += 1;
            }
            assert(col@ =~= self@[x as int]);
            cols.push(col);
            x += 1;
        }
        let b = Board { cols };
        assert(b@ =~= self@);
        b
    }
}

/// Rows of colour codes can be read as a board.
pub open spec fn rows_fit(rows: Seq<Seq<i32>>) -> bool {
    &&& rows.len() == SIDE
    &&& forall|r: int| 0 <= r < SIDE ==> (#[trigger] rows[r]).len() >= SIDE
}

/// The grid that rows of colour codes describe: the first row is the top.
pub open spec fn grid_of_rows(rows: Seq<Seq<i32>>) -> Grid {
    Seq::new(
        SIDE as nat,
        |x: int| Seq::new(SIDE as nat, |y: int| Cell::of_code(rows[SIDE - 1 - y][x] as int)),
    )
}

/// A column without any tile.
pub fn empty_column() -> (col: Vec<Cell>)
    ensures
        col@ == vacant_column(),
{
    let mut col: Vec<Cell> = Vec::new();
    let mut y: usize = 0;
    while y < SIDE
        invariant
            y <= SIDE,
            col@.len() == y,
            forall|j: int| 0 <= j < y ==> (#[trigger] col@[j]) == Cell::Empty,
        decreases SIDE - y,
    {
        col.push(Cell::Empty);
        y += 1;
    }
    assert(col@ =~= vacant_column());
    col
}

} // verus!
