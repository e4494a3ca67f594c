//! The cells on a ray's way are the cells that the ray passes through:
//! every point of the ray lies in one of them, and each of them holds a point
//! of the ray.
//!
//! A point of the ray is given by the share `p / q` of the ray that lies
//! before it, so that no point has to be rounded.

use vstd::prelude::*;
use crate::collision::magnitude;
use crate::geometry::cell_floor;
use crate::geometry::Cell;
use crate::geometry::CELL_SIZE;
use crate::ray::RayQuery;

verus! {

impl RayQuery {
    /// Whether the point of the ray after the share `p / q` of its run lies
    /// in the cell, borders included.
    pub open spec fn passes_cell(self, cell: Cell, p: int, q: int) -> bool {
        let x = self.origin.x * q + (self.end_x() - self.origin.x) * p;
        let y = self.origin.y * q + (self.end_y() - self.origin.y) * p;
        &&& cell.x * CELL_SIZE * q <= x <= (cell.x + 1) * CELL_SIZE * q
        &&& cell.y * CELL_SIZE * q <= y <= (cell.y + 1) * CELL_SIZE * q
    }

    /// How far the origin lies, along the horizontal axis, from the border
    /// of `column` that the ray's run is directed at.
    pub open spec fn far_x(self, column: int) -> int {
        if self.end_x() > self.origin.x {
            (column + 1) * CELL_SIZE - self.origin.x
        } else {
            self.origin.x - column * CELL_SIZE
        }
    }

    /// How far the origin lies, along the vertical axis, from the border of
    /// `row` that the ray's run is directed at.
    pub open spec fn far_y(self, row: int) -> int {
        if self.end_y() > self.origin.y {
            (row + 1) * CELL_SIZE - self.origin.y
        } else {
            self.origin.y - row * CELL_SIZE
        }
    }

    /// Whether the point after the share `p / q` has come as far as
    /// `column` along the horizontal axis.
    pub open spec fn reached_x(self, column: int, p: int, q: int) -> bool {
        self.end_x() != self.origin.x ==> (self.far_x(column) - CELL_SIZE) * q <= magnitude(
            self.end_x() - self.origin.x,
        ) * p
    }

    /// Whether the point after the share `p / q` has come as far as `row`
    /// along the vertical axis.
    pub open spec fn reached_y(self, row: int, p: int, q: int) -> bool {
        self.end_y() != self.origin.y ==> (self.far_y(row) - CELL_SIZE) * q <= magnitude(
            self.end_y() - self.origin.y,
        ) * p
    }

    /// Whether the point after the share `p / q` has not yet left `column`
    /// along the horizontal axis.
    pub open spec fn stays_x(self, column: int, p: int, q: int) -> bool {
        self.end_x() != self.origin.x ==> magnitude(self.end_x() - self.origin.x) * p
            <= self.far_x(column) * q
    }

    /// Whether the point after the share `p / q` has not yet left `row`
    /// along the vertical axis.
    pub open spec fn stays_y(self, row: int, p: int, q: int) -> bool {
        self.end_y() != self.origin.y ==> magnitude(self.end_y() - self.origin.y) * p
            <= self.far_y(row) * q
    }

    /// A point that has come as far as a cell on the ray's way along both
    /// axes, and has left it along neither, lies in the cell.
    proof fn lemma_in_cell(self, column: int, row: int, p: int, q: int)
        requires
            self.on_way(column, row),
            0 <= p <= q,
            q > 0,
            self.reached_x(column, p, q),
            self.reached_y(row, p, q),
            self.stays_x(column, p, q),
            self.stays_y(row, p, q),
            -0x100_0000 <= column <= 0x100_0000,
            -0x100_0000 <= row <= 0x100_0000,
        ensures
            self.passes_cell(Cell { x: column as i32, y: row as i32 }, p, q),
    {
        let ox = self.origin.x as int;
        let oy = self.origin.y as int;
        let vx = self.end_x() - ox;
        let vy = self.end_y() - oy;
        let size = CELL_SIZE as int;
        assert(column * size * q <= ox * q + vx * p <= (column + 1) * size * q) by {
            if vx > 0 {
                assert((column * size - ox) * q == column * size * q - ox * q
                    && ((column + 1) * size - ox) * q == (column + 1) * size * q - ox * q)
                    by (nonlinear_arith);
            } else if vx < 0 {
                assert((ox - (column + 1) * size) * q == ox * q - (column + 1) * size * q && (ox
                    - column * size) * q == ox * q - column * size * q && (-vx) * p == -(vx * p))
                    by (nonlinear_arith);
            } else {
                assert(vx * p == 0) by (nonlinear_arith)
                    requires
                        vx == 0,
                ;
                assert(column == cell_floor(ox));
                assert(column * size * q <= ox * q <= (column + 1) * size * q)
                    by (nonlinear_arith)
                    requires
                        column * size <= ox <= (column + 1) * size,
                        q > 0,
                ;
            }
        }
        assert(row * size * q <= oy * q + vy * p <= (row + 1) * size * q) by {
            if vy > 0 {
                assert((row * size - oy) * q == row * size * q - oy * q && ((row + 1) * size
                    - oy) * q == (row + 1) * size * q - oy * q) by (nonlinear_arith);
            } else if vy < 0 {
                assert((oy - (row + 1) * size) * q == oy * q - (row + 1) * size * q && (oy - row
                    * size) * q == oy * q - row * size * q && (-vy) * p == -(vy * p))
                    by (nonlinear_arith);
            } else {
                assert(vy * p == 0) by (nonlinear_arith)
                    requires
                        vy == 0,
                ;
                assert(row == cell_floor(oy));
                assert(row * size * q <= oy * q <= (row + 1) * size * q) by (nonlinear_arith)
                    requires
                        row * size <= oy <= (row + 1) * size,
                        q > 0,
                ;
            }
        }
    }

    /// No point of the ray leaves the last column or the last row.
    proof fn lemma_stays_at_last(self, column: int, row: int, p: int, q: int)
        requires
            self.on_way(column, row),
            0 <= p <= q,
            q > 0,
        ensures
            column == self.last_column() ==> self.stays_x(column, p, q),
            row == self.last_row() ==> self.stays_y(row, p, q),
    {
        let sx = magnitude(self.end_x() - self.origin.x);
        let sy = magnitude(self.end_y() - self.origin.y);
        if column == self.last_column() && sx != 0 {
            let far = self.far_x(column);
            assert(sx <= far);
            assert(sx * p <= far * q) by (nonlinear_arith)
                requires
                    0 <= sx <= far,
                    0 <= p <= q,
            ;
        }
        if row == self.last_row() && sy != 0 {
            let far = self.far_y(row);
            assert(sy <= far);
            assert(sy * p <= far * q) by (nonlinear_arith)
                requires
                    0 <= sy <= far,
                    0 <= p <= q,
            ;
        }
    }

    /// A point of the ray that has come as far as a cell on the ray's way
    /// lies in that cell or in one that follows it on the way.
    pub proof fn lemma_covered_from(self, column: int, row: int, p: int, q: int) -> (k: int)
        requires
            self.on_way(column, row),
            0 <= p <= q,
            q > 0,
            self.reached_x(column, p, q),
            self.reached_y(row, p, q),
        ensures
            0 <= k < self.legs_from(column, row).len(),
            self.passes_cell(self.legs_from(column, row)[k].cell, p, q),
        decreases magnitude(self.last_column() - column) + magnitude(self.last_row() - row),
    {
        self.lemma_end();
        self.lemma_stays_at_last(column, row, p, q);
        if self.stays_x(column, p, q) && self.stays_y(row, p, q) {
            self.lemma_in_cell(column, row, p, q);
            0
        } else {
            let sx = magnitude(self.end_x() - self.origin.x);
            let sy = magnitude(self.end_y() - self.origin.y);
            let bx = self.border_x(column);
            let by = self.border_y(row);
            let across = self.leaves_across(column, row);
            let upward = self.leaves_upward(column, row);
            let to_column = self.next_column(column, row);
            let to_row = self.next_row(column, row);
            self.lemma_leaves_in_order(column, row);
            if column != self.last_column() {
                assert(bx == self.far_x(column));
                assert(self.far_x(to_column) - CELL_SIZE == bx || to_column == column);
            }
            if row != self.last_row() {
                assert(by == self.far_y(row));
                assert(self.far_y(to_row) - CELL_SIZE == by || to_row == row);
            }
            if across && self.stays_x(column, p, q) {
                assert(!self.stays_y(row, p, q));
                assert(false) by (nonlinear_arith)
                    requires
                        bx * sy <= by * sx,
                        sy * p > by * q,
                        sx * p <= bx * q,
                        sx > 0,
                        sy > 0,
                        q > 0,
                        p >= 0,
                        bx >= 0,
                        by >= 0,
                ;
            }
            if upward && self.stays_y(row, p, q) {
                assert(!self.stays_x(column, p, q));
                assert(false) by (nonlinear_arith)
                    requires
                        by * sx <= bx * sy,
                        sx * p > bx * q,
                        sy * p <= by * q,
                        sx > 0,
                        sy > 0,
                        q > 0,
                        p >= 0,
                        bx >= 0,
                        by >= 0,
                ;
            }
            assert(self.reached_x(to_column, p, q));
            assert(self.reached_y(to_row, p, q));
            let next = self.lemma_covered_from(to_column, to_row, p, q);
            assert(self.legs_from(column, row)[next + 1] == self.legs_from(to_column, to_row)[next]);
            next + 1
        }
    }

    /// The cells on a ray's way leave no gap: every point of a ray with
    /// some length, from its origin to its end, lies in a cell of the way.
    pub proof fn lemma_covered(self, p: int, q: int) -> (k: int)
        requires
            self.length > 0,
            0 <= p <= q,
            q > 0,
        ensures
            0 <= k < self.legs().len(),
            self.passes_cell(self.legs()[k].cell, p, q),
    {
        let column = cell_floor(self.origin.x as int);
        let row = cell_floor(self.origin.y as int);
        let sx = magnitude(self.end_x() - self.origin.x);
        let sy = magnitude(self.end_y() - self.origin.y);
        assert((self.far_x(column) - CELL_SIZE) * q <= sx * p) by (nonlinear_arith)
            requires
                self.far_x(column) - CELL_SIZE <= 0,
                q > 0,
                sx >= 0,
                p >= 0,
        ;
        assert((self.far_y(row) - CELL_SIZE) * q <= sy * p) by (nonlinear_arith)
            requires
                self.far_y(row) - CELL_SIZE <= 0,
                q > 0,
                sy >= 0,
                p >= 0,
        ;
        self.lemma_covered_from(column, row, p, q)
    }
}

impl RayQuery {
    /// Each cell on the way from a cell that holds a point of the ray holds
    /// a point of the ray; the point is given by its share `w.0 / w.1`.
    pub proof fn lemma_met_from(self, column: int, row: int, p: int, q: int, k: int) -> (w: (
        int,
        int,
    ))
        requires
            self.on_way(column, row),
            0 <= p <= q,
            q > 0,
            self.reached_x(column, p, q),
            self.reached_y(row, p, q),
            self.stays_x(column, p, q),
            self.stays_y(row, p, q),
            0 <= k < self.legs_from(column, row).len(),
        ensures
            0 <= w.0 <= w.1,
            w.1 > 0,
            self.passes_cell(self.legs_from(column, row)[k].cell, w.0, w.1),
        decreases magnitude(self.last_column() - column) + magnitude(self.last_row() - row),
    {
        self.lemma_end();
        if k == 0 {
            self.lemma_in_cell(column, row, p, q);
            (p, q)
        } else {
            let sx = magnitude(self.end_x() - self.origin.x);
            let sy = magnitude(self.end_y() - self.origin.y);
            let bx = self.border_x(column);
            let by = self.border_y(row);
            let across = self.leaves_across(column, row);
            let upward = self.leaves_upward(column, row);
            let to_column = self.next_column(column, row);
            let to_row = self.next_row(column, row);
            let size = CELL_SIZE as int;
            self.lemma_leaves_in_order(column, row);
            if column != self.last_column() {
                self.lemma_border_x(column, row);
                assert(bx == self.far_x(column));
                assert(self.far_x(to_column) == bx + size || to_column == column);
            } else if sx != 0 {
                assert(sx <= self.far_x(column));
            }
            if row != self.last_row() {
                self.lemma_border_y(column, row);
                assert(by == self.far_y(row));
                assert(self.far_y(to_row) == by + size || to_row == row);
            } else if sy != 0 {
                assert(sy <= self.far_y(row));
            }
            let fx = self.far_x(column);
            let fy = self.far_y(row);
            // the point at which the ray leaves the cell
            let (e, d) = if across {
                (bx, sx)
            } else {
                (by, sy)
            };
            assert(0 <= e <= d && d > 0);
            if across {
                assert(self.reached_x(to_column, e, d) && self.stays_x(to_column, e, d))
                    by (nonlinear_arith)
                    requires
                        self.far_x(to_column) == bx + size,
                        e == bx,
                        d == sx,
                        sx > 0,
                        size > 0,
                        self.end_x() != self.origin.x,
                        sx == magnitude(self.end_x() - self.origin.x),
                        CELL_SIZE == size,
                ;
                if sy != 0 {
                    if upward {
                        assert(bx * sy == by * sx);
                        assert(self.reached_y(to_row, e, d) && self.stays_y(to_row, e, d))
                            by (nonlinear_arith)
                            requires
                                self.far_y(to_row) == by + size,
                                bx * sy == by * sx,
                                e == bx,
                                d == sx,
                                sx > 0,
                                size > 0,
                                sy == magnitude(self.end_y() - self.origin.y),
                                CELL_SIZE == size,
                        ;
                    } else {
                        assert((fy - size) * sx <= sy * bx) by (nonlinear_arith)
                            requires
                                (fy - size) * q <= sy * p,
                                sx * p <= bx * q,
                                q > 0,
                                sx > 0,
                                sy > 0,
                                p >= 0,
                                bx >= 0,
                        ;
                        assert(sy * bx <= fy * sx) by (nonlinear_arith)
                            requires
                                row == self.last_row() ==> sy <= fy,
                                row != self.last_row() ==> bx * sy <= fy * sx,
                                0 <= bx <= sx,
                                sy > 0,
                        ;
                    }
                }
            } else {
                assert(upward);
                assert(self.reached_y(to_row, e, d) && self.stays_y(to_row, e, d))
                    by (nonlinear_arith)
                    requires
                        self.far_y(to_row) == by + size,
                        e == by,
                        d == sy,
                        sy > 0,
                        size > 0,
                        self.end_y() != self.origin.y,
                        sy == magnitude(self.end_y() - self.origin.y),
                        CELL_SIZE == size,
                ;
                if sx != 0 {
                    assert((fx - size) * sy <= sx * by) by (nonlinear_arith)
                        requires
                            (fx - size) * q <= sx * p,
                            sy * p <= by * q,
                            q > 0,
                            sx > 0,
                            sy > 0,
                            p >= 0,
                            by >= 0,
                    ;
                    assert(sx * by <= fx * sy) by (nonlinear_arith)
                        requires
                            column == self.last_column() ==> sx <= fx,
                            column != self.last_column() ==> by * sx <= fx * sy,
                            0 <= by <= sy,
                            sx > 0,
                    ;
                }
            }
            assert(self.reached_x(to_column, e, d));
            assert(self.stays_x(to_column, e, d));
            assert(self.reached_y(to_row, e, d));
            assert(self.stays_y(to_row, e, d));
            assert(self.legs_from(column, row)[k] == self.legs_from(to_column, to_row)[k - 1]);
            self.lemma_met_from(to_column, to_row, e, d, k - 1)
        }
    }

    /// The way of a ray holds no cell that the ray does not pass through:
    /// each cell on it holds a point of the ray, given by its share
    /// `w.0 / w.1`.
    pub proof fn lemma_met(self, k: int) -> (w: (int, int))
        requires
            0 <= k < self.legs().len(),
        ensures
            0 <= w.0 <= w.1,
            w.1 > 0,
            self.passes_cell(self.legs()[k].cell, w.0, w.1),
    {
        let column = cell_floor(self.origin.x as int);
        let row = cell_floor(self.origin.y as int);
        self.lemma_met_from(column, row, 0, 1, k)
    }
}

} // verus!
