//! Fixed-point plane geometry: points, grid cells and the shapes a body can have.
//!
//! Lengths and coordinates are whole numbers of *steps*; one grid cell is a
//! square of `CELL_SIZE` steps. A cell `(i, j)` spans the steps
//! `i * CELL_SIZE ..= (i + 1) * CELL_SIZE` horizontally and likewise vertically.

use vstd::prelude::*;
use vstd::arithmetic::div_mod::lemma_fundamental_div_mod_converse;
use vstd::arithmetic::div_mod::lemma_fundamental_div_mod;
use vstd::arithmetic::div_mod::lemma_mod_bound;

verus! {

/// Side of one grid cell, in steps.
pub const CELL_SIZE: i64 = 1024;

/// A position in the plane, in steps.
#[derive(Clone, Copy, PartialEq, Eq, Structural, Debug)]
pub struct Point {
    pub x: i32,
    pub y: i32,
}

/// One square of the grid, named by its column and row.
#[derive(Clone, Copy, PartialEq, Eq, Structural, Debug)]
pub struct Cell {
    pub x: i32,
    pub y: i32,
}

/// The closed set of shapes. Every shape is centred on the position of the
/// body that carries it.
#[derive(Clone, Copy, PartialEq, Eq, Structural, Debug)]
pub enum Shape {
    /// A disc, by its radius.
    Circle(u32),
    /// An axis-aligned rectangle, by half its width and half its height.
    Rectangle(u32, u32),
}

/// Column (or row) of the grid line at or below coordinate `v`.
pub open spec fn cell_floor(v: int) -> int {
    v / (CELL_SIZE as int)
}

/// Column (or row) of the grid line at or above coordinate `v`.
pub open spec fn cell_ceil(v: int) -> int {
    -((-v) / (CELL_SIZE as int))
}

/// The cell that holds the point: the one whose lower left corner is the
/// nearest grid corner at or below it.
pub open spec fn cell_of(p: Point) -> Cell {
    Cell { x: cell_floor(p.x as int) as i32, y: cell_floor(p.y as int) as i32 }
}

pub(crate) fn floor_cell(v: i64) -> (c: i64)
    requires
        -0x4_0000_0000 <= v <= 0x4_0000_0000,
    ensures
        c == cell_floor(v as int),
        -0x100_0000 <= c <= 0x100_0000,
{
    if v >= 0 {
        v / CELL_SIZE
    } else {
        let up: i64 = (-v + (CELL_SIZE - 1)) / CELL_SIZE;
        -up
    }
}

pub(crate) fn ceil_cell(v: i64) -> (c: i64)
    requires
        -0x4_0000_0000 <= v <= 0x4_0000_0000,
    ensures
        c == cell_ceil(v as int),
        -0x100_0000 <= c <= 0x100_0000,
{
    let down: i64 = floor_cell(-v);
    -down
}

/// The cell that holds a point.
pub fn point_cell(p: Point) -> (c: Cell)
    ensures
        c == cell_of(p),
{
    let x: i64 = floor_cell(p.x as i64);
    let y: i64 = floor_cell(p.y as i64);
    Cell { x: x as i32, y: y as i32 }
}

impl Shape {
    /// Half the width of the shape's bounding box.
    pub open spec fn half_width(self) -> int {
        match self {
            Shape::Circle(r) => r as int,
            Shape::Rectangle(w, _) => w as int,
        }
    }

    /// Half the height of the shape's bounding box.
    pub open spec fn half_height(self) -> int {
        match self {
            Shape::Circle(r) => r as int,
            Shape::Rectangle(_, h) => h as int,
        }
    }

    /// Whether the bounding box of the shape, placed at `pos`, reaches into
    /// the inside of `cell`. Touching a cell along its border is not enough.
    pub open spec fn covers(self, pos: Point, cell: Cell) -> bool {
        &&& cell.x * CELL_SIZE < pos.x + self.half_width()
        &&& (cell.x + 1) * CELL_SIZE > pos.x - self.half_width()
        &&& cell.y * CELL_SIZE < pos.y + self.half_height()
        &&& (cell.y + 1) * CELL_SIZE > pos.y - self.half_height()
    }

    /// First covered column.
    pub open spec fn first_column(self, pos: Point) -> int {
        cell_floor(pos.x - self.half_width())
    }

    /// One past the last covered column.
    pub open spec fn end_column(self, pos: Point) -> int {
        cell_ceil(pos.x + self.half_width())
    }

    /// First covered row.
    pub open spec fn first_row(self, pos: Point) -> int {
        cell_floor(pos.y - self.half_height())
    }

    /// One past the last covered row.
    pub open spec fn end_row(self, pos: Point) -> int {
        cell_ceil(pos.y + self.half_height())
    }

    /// Number of covered rows in each covered column.
    pub open spec fn rows(self, pos: Point) -> int {
        self.end_row(pos) - self.first_row(pos)
    }

    /// Number of covered columns.
    pub open spec fn columns(self, pos: Point) -> int {
        self.end_column(pos) - self.first_column(pos)
    }

    /// The `k`-th covered cell: columns from left to right, and each column
    /// from bottom to top.
    pub open spec fn cell_at(self, pos: Point, k: int) -> Cell {
        Cell {
            x: (self.first_column(pos) + k / self.rows(pos)) as i32,
            y: (self.first_row(pos) + k % self.rows(pos)) as i32,
        }
    }

    /// The covered cells, in the order in which `cells` lists them.
    pub open spec fn cells_seq(self, pos: Point) -> Seq<Cell> {
        Seq::new((self.columns(pos) * self.rows(pos)) as nat, |k: int| self.cell_at(pos, k))
    }

    /// Half width and half height of the bounding box.
    pub fn half_extents(&self) -> (e: (u32, u32))
        ensures
            e.0 == self.half_width(),
            e.1 == self.half_height(),
    {
        match *self {
            Shape::Circle(r) => (r, r),
            Shape::Rectangle(w, h) => (w, h),
        }
    }

    /// The covered columns and rows are in range and not reversed.
    pub proof fn lemma_extent(self, pos: Point)
        ensures
            -0x100_0000 <= self.first_column(pos) <= self.end_column(pos) <= 0x100_0000,
            -0x100_0000 <= self.first_row(pos) <= self.end_row(pos) <= 0x100_0000,
            0 <= self.columns(pos) * self.rows(pos) <= 0x400_0000_0000_0000,
    {
        let c = self.columns(pos);
        let r = self.rows(pos);
        assert(0 <= c <= 0x200_0000 && 0 <= r <= 0x200_0000);
        assert(0 <= c * r <= 0x200_0000 * 0x200_0000) by (nonlinear_arith)
            requires
                0 <= c <= 0x200_0000,
                0 <= r <= 0x200_0000,
        ;
    }

    /// A cell is listed exactly when the shape covers it, and no cell is
    /// listed twice.
    pub proof fn lemma_cells_seq(self, pos: Point)
        ensures
            forall|c: Cell| #[trigger] self.cells_seq(pos).contains(c) <==> self.covers(pos, c),
            self.cells_seq(pos).no_duplicates(),
    {
        self.lemma_extent(pos);
        let s = self.cells_seq(pos);
        let rows = self.rows(pos);
        let cols = self.columns(pos);
        let x0 = self.first_column(pos);
        let y0 = self.first_row(pos);
        assert forall|k: int| 0 <= k < s.len() implies {
            &&& 0 <= k / rows < cols
            &&& 0 <= k % rows < rows
            &&& k == rows * (k / rows) + k % rows
            &&& self.covers(pos, #[trigger] s[k])
        } by {
            assert(rows > 0) by (nonlinear_arith)
                requires
                    0 <= k < cols * rows,
                    rows >= 0,
            ;
            lemma_fundamental_div_mod(k, rows);
            lemma_mod_bound(k, rows);
            let q = k / rows;
            let m = k % rows;
            assert(0 <= q < cols) by (nonlinear_arith)
                requires
                    0 <= k < cols * rows,
                    k == rows * q + m,
                    0 <= m < rows,
            ;
        }
        assert forall|c: Cell| self.covers(pos, c) implies #[trigger] s.contains(c) by {
            let q = c.x - x0;
            let m = c.y - y0;
            assert(0 <= q < cols && 0 <= m < rows);
            let k = q * rows + m;
            lemma_fundamental_div_mod_converse(k, rows, q, m);
            assert(0 <= k < cols * rows) by (nonlinear_arith)
                requires
                    0 <= q < cols,
                    0 <= m < rows,
                    k == q * rows + m,
            ;
            assert(s[k] == c);
        }
        assert forall|i: int, j: int| 0 <= i < s.len() && 0 <= j < s.len() && i != j implies s[i]
            != s[j] by {
            if s[i] == s[j] {
                assert(i / rows == j / rows);
                assert(i % rows == j % rows);
                assert(i == rows * (i / rows) + i % rows);
                assert(j == rows * (j / rows) + j % rows);
            }
        }
    }

    /// Every grid cell that the shape's bounding box reaches into when the
    /// shape is placed at `pos`: column by column from the left, each column
    /// from the bottom up.
    pub fn cells(&self, pos: Point) -> (cells: Vec<Cell>)
        ensures
            cells@ == self.cells_seq(pos),
            forall|c: Cell| #[trigger] cells@.contains(c) <==> self.covers(pos, c),
            cells@.no_duplicates(),
    {
        let (hw, hh) = self.half_extents();
        let x0: i64 = floor_cell(pos.x as i64 - hw as i64);
        let x1: i64 = ceil_cell(pos.x as i64 + hw as i64);
        let y0: i64 = floor_cell(pos.y as i64 - hh as i64);
        let y1: i64 = ceil_cell(pos.y as i64 + hh as i64);
        let ghost rows = self.rows(pos);
        proof {
            self.lemma_extent(pos);
            self.lemma_cells_seq(pos);
        }
        let mut cells: Vec<Cell> = Vec::new();
        let mut x: i64 = x0;
        while x < x1
            invariant
                x0 == self.first_column(pos),
                x1 == self.end_column(pos),
                y0 == self.first_row(pos),
                y1 == self.end_row(pos),
                rows == y1 - y0,
                -0x100_0000 <= x0 <= x <= x1 <= 0x100_0000,
                -0x100_0000 <= y0 <= y1 <= 0x100_0000,
                cells@.len() == (x - x0) * rows,
                forall|k: int| 0 <= k < cells@.len() ==> cells@[k] == self.cell_at(pos, k),
            decreases x1 - x,
        {
            let mut y: i64 = y0;
            while y < y1
                invariant
                    x0 == self.first_column(pos),
                    x1 == self.end_column(pos),
                    y0 == self.first_row(pos),
                    y1 == self.end_row(pos),
                    rows == y1 - y0,
                    -0x100_0000 <= x0 <= x < x1 <= 0x100_0000,
                    -0x100_0000 <= y0 <= y <= y1 <= 0x100_0000,
                    cells@.len() == (x - x0) * rows + (y - y0),
                    forall|k: int| 0 <= k < cells@.len() ==> cells@[k] == self.cell_at(pos, k),
                decreases y1 - y,
            {
                proof {
                    let k = cells@.len() as int;
                    lemma_fundamental_div_mod_converse(k, rows, x - x0, y - y0);
                }
                cells.push(Cell { x: x as i32, y: y as i32 });
                y = y + 1;
            }
            proof {
                assert((x + 1 - x0) * rows == (x - x0) * rows + rows) by (nonlinear_arith);
            }
            x = x + 1;
        }
        proof {
            assert(cells@ =~= self.cells_seq(pos));
        }
        cells
    }
}

} // verus!
