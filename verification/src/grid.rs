//! Rectangular grids of cells in row-major order: the pixel grids that the
//! importers read and the exporters make.
use vstd::prelude::*;

verus! {

/// A grid as a mathematical value: `cells` holds the rows one after the
/// other, each from left to right.
pub struct GridView<T> {
    pub width: nat,
    pub height: nat,
    pub cells: Seq<T>,
}

impl<T> GridView<T> {
    /// There is one cell for each position.
    pub open spec fn well_formed(self) -> bool {
        self.cells.len() == self.width * self.height
    }

    /// The cell in column `x` of row `y`.
    pub open spec fn at(self, x: int, y: int) -> T {
        self.cells[y * self.width + x]
    }

    /// The rows from `from` up to, not including, `to`, as a grid of the same
    /// width. Rows that the grid does not have are left out.
    pub open spec fn rows(self, from: nat, to: nat) -> GridView<T> {
        let first = if from < self.height {
            from
        } else {
            self.height
        };
        let last = if to < first {
            first
        } else if to < self.height {
            to
        } else {
            self.height
        };
        GridView {
            width: self.width,
            height: (last - first) as nat,
            cells: self.cells.subrange((self.width * first) as int, (self.width * last) as int),
        }
    }
}

/// The position of cell (`x`, `y`) in a row-major grid lies within the grid,
/// and cells of different positions lie apart.
pub proof fn lemma_cell_position(width: nat, height: nat, x: int, y: int)
    requires
        0 <= x < width,
        0 <= y < height,
    ensures
        0 <= y * width,
        0 <= y * width + x < width * height,
        (y * width + x) / (width as int) == y,
        (y * width + x) % (width as int) == x,
{
    assert(y * width + x < width * height) by (nonlinear_arith)
        requires
            0 <= x < width,
            0 <= y < height,
    ;
    assert(0 <= y * width) by (nonlinear_arith)
        requires
            0 <= y,
            0 <= width,
    ;
    vstd::arithmetic::div_mod::lemma_fundamental_div_mod_converse(
        y * width + x,
        width as int,
        y,
        x,
    );
}

/// A grid of cells that owns its storage. It always holds exactly
/// `width * height` cells.
pub struct Grid<T> {
    width: u32,
    height: u32,
    cells: Vec<T>,
}

impl<T> View for Grid<T> {
    type V = GridView<T>;

    closed spec fn view(&self) -> GridView<T> {
        GridView { width: self.width as nat, height: self.height as nat, cells: self.cells@ }
    }
}

impl<T> Grid<T> {
    #[verifier::type_invariant]
    spec fn cells_fill_grid(self) -> bool {
        self.cells@.len() == self.width * self.height
    }
}

impl<T: Copy> Grid<T> {
    /// Makes a grid of `width` by `height` from its cells in row-major order.
    /// Returns `None` unless there are exactly `width * height` of them.
    pub fn new(width: u32, height: u32, cells: Vec<T>) -> (grid: Option<Self>)
        ensures
            grid is Some <==> cells@.len() == width * height,
            grid matches Some(g) ==> g@ == (GridView {
                width: width as nat,
                height: height as nat,
                cells: cells@,
            }),
    {
        assert(0 <= width * height <= 0xffff_ffff_ffff_ffff) by (nonlinear_arith)
            requires
                0 <= width <= 0xffff_ffff,
                0 <= height <= 0xffff_ffff,
        ;
        let area: u64 = (width as u64) * (height as u64);
        if cells.len() as u64 == area {
            Some(Grid { width, height, cells })
        } else {
            None
        }
    }

    /// The number of columns.
    pub fn width(&self) -> (w: u32)
        ensures
            w == self@.width,
            self@.well_formed(),
    {
        proof {
            use_type_invariant(self);
        }
        self.width
    }

    /// The number of rows.
    pub fn height(&self) -> (h: u32)
        ensures
            h == self@.height,
            self@.well_formed(),
    {
        proof {
            use_type_invariant(self);
        }
        self.height
    }

    /// The cells in row-major order.
    pub fn cells(&self) -> (cells: &Vec<T>)
        ensures
            cells@ == self@.cells,
            self@.well_formed(),
    {
        proof {
            use_type_invariant(self);
        }
        &self.cells
    }

    /// Gives up the grid for its cells in row-major order.
    pub fn into_cells(self) -> (cells: Vec<T>)
        ensures
            cells@ == self@.cells,
            self@.well_formed(),
    {
        proof {
            use_type_invariant(&self);
        }
        self.cells
    }

    /// The cell in column `x` of row `y`, or `None` outside the grid.
    pub fn get(&self, x: u32, y: u32) -> (cell: Option<T>)
        ensures
            cell == if x < self@.width && y < self@.height {
                Some(self@.at(x as int, y as int))
            } else {
                None
            },
    {
        proof {
            use_type_invariant(self);
        }
        let count: usize = self.cells.len();
        if x < self.width && y < self.height {
            proof {
                lemma_cell_position(self.width as nat, self.height as nat, x as int, y as int);
            }
            assert(y * self.width + x < count);
            let row: usize = (y as usize) * (self.width as usize);
            Some(self.cells[row + x as usize])
        } else {
            None
        }
    }

    /// Copies the rows from `from` up to, not including, `to` into a grid of
    /// their own. Rows that the grid does not have are left out.
    pub fn rows(&self, from: u32, to: u32) -> (part: Self)
        ensures
            part@ == self@.rows(from as nat, to as nat),
    {
        proof {
            use_type_invariant(self);
        }
        let first: u32 = if from < self.height {
            from
        } else {
            self.height
        };
        let last: u32 = if to < first {
            first
        } else if to < self.height {
            to
        } else {
            self.height
        };
        assert(0 <= self.width * first <= self.width * last <= self.width * self.height)
            by (nonlinear_arith)
            requires
                0 <= first <= last <= self.height,
                0 <= self.width,
        ;
        assert(self.width * (last - first) == self.width * last - self.width * first)
            by (nonlinear_arith);
        let count: usize = self.cells.len();
        assert(self.width * last <= count);
        let start: usize = (self.width as usize) * (first as usize);
        let end: usize = (self.width as usize) * (last as usize);
        let mut cells: Vec<T> = Vec::new();
        let mut i: usize = start;
        while i < end
            invariant
                start <= i <= end <= self.cells@.len(),
                cells@ == self.cells@.subrange(start as int, i as int),
            decreases end - i,
        {
            cells.push(self.cells[i]);
            assert(cells@ =~= self.cells@.subrange(start as int, i + 1));
            i += 1;
        }
        Grid { width: self.width, height: last - first, cells }
    }
}

} // verus!
