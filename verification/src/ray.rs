//! Rays: where a ray meets a shape, and which grid cells it passes through.
//!
//! A ray starts at a point and runs a given length in a direction. The
//! direction is held by its cosine and sine in fixed point, `ANGLE_ONE`
//! standing for 1. Distances along the ray are measured in steps from the
//! origin, negative behind it.

use vstd::prelude::*;
use vstd::arithmetic::div_mod::lemma_fundamental_div_mod;
use vstd::arithmetic::div_mod::lemma_fundamental_div_mod_converse;
use vstd::arithmetic::div_mod::lemma_mod_bound;
use crate::collision::isqrt;
use crate::collision::lemma_sqrt_floor_below;
use crate::collision::magnitude;
use crate::collision::side;
use crate::collision::sqrt_floor;
use crate::entity::passes;
use crate::entity::EntityInformation;
use crate::geometry::cell_floor;
use crate::geometry::cell_of;
use crate::geometry::floor_cell;
use crate::geometry::Cell;
use crate::geometry::Point;
use crate::geometry::Shape;
use crate::geometry::CELL_SIZE;

verus! {

/// The fixed-point value of a cosine or sine of 1.
pub const ANGLE_ONE: i64 = 16384;

/// A direction in the plane, by its cosine and sine in units of
/// `1 / ANGLE_ONE`. East is `(ANGLE_ONE, 0)` and north is `(0, ANGLE_ONE)`.
#[derive(Clone, Copy, PartialEq, Eq, Structural, Debug)]
pub struct Angle {
    pub cos: i16,
    pub sin: i16,
}

/// A one-shot query for the bodies along a ray.
#[derive(Clone, Debug)]
pub struct RayCast {
    pub origin: Point,
    pub angle: Angle,
    /// How far the ray runs, in steps.
    pub length: u32,
    pub group: u32,
    pub mask: u32,
    /// Ids of the bodies that the query never reports.
    pub not: Vec<u64>,
}

/// A body met by a ray, with the distances at which the ray's line enters
/// and leaves its shape.
#[derive(Clone, Copy, PartialEq, Eq, Structural, Debug)]
pub struct RayHit {
    pub entity: EntityInformation,
    pub min: i64,
    pub max: i64,
}

/// One cell on a ray's way, with the distance at which the ray leaves it.
#[derive(Clone, Copy, PartialEq, Eq, Structural, Debug)]
pub struct Leg {
    pub cell: Cell,
    pub reach: i64,
}

/// The four ways a ray can mainly run.
#[derive(Clone, Copy, PartialEq, Eq, Structural, Debug)]
pub enum Direction {
    Left,
    Right,
    Up,
    Down,
}

/// Quotient rounded towards minus infinity.
pub(crate) fn div_floor(n: i128, d: i128) -> (q: i128)
    requires
        d > 0,
        -0x1000_0000_0000_0000_0000 <= n <= 0x1000_0000_0000_0000_0000,
        d <= 0x1000_0000_0000_0000_0000,
    ensures
        q == n / d,
{
    if n >= 0 {
        n / d
    } else {
        let m: i128 = -n;
        let up: i128 = (m + (d - 1)) / d;
        proof {
            let rest = (m + (d - 1)) % (d as int);
            lemma_fundamental_div_mod(m + (d - 1), d as int);
            lemma_mod_bound(m + (d - 1), d as int);
            assert(n == d * (-up) + (d - 1 - rest)) by (nonlinear_arith)
                requires
                    m + (d - 1) == d * up + rest,
                    n == -m,
            ;
            lemma_fundamental_div_mod_converse(n as int, d as int, -up, d - 1 - rest);
        }
        -up
    }
}

/// A quotient of a number between zero and the divisor's multiple stays
/// between zero and the multiplier.
proof fn lemma_div_bounds(n: int, d: int, top: int)
    requires
        d > 0,
        0 <= n <= top * d,
    ensures
        0 <= n / d <= top,
{
    lemma_fundamental_div_mod(n, d);
    lemma_mod_bound(n, d);
    let q = n / d;
    let r = n % d;
    assert(0 <= q <= top) by (nonlinear_arith)
        requires
            n == d * q + r,
            0 <= r < d,
            0 <= n <= top * d,
            d > 0,
    ;
}

/// A quotient is no further from zero than what is divided.
proof fn lemma_div_within(n: int, d: int, bound: int)
    requires
        d > 0,
        -bound <= n <= bound,
    ensures
        -bound <= n / d <= bound,
{
    lemma_fundamental_div_mod(n, d);
    lemma_mod_bound(n, d);
    let q = n / d;
    let r = n % d;
    assert(-bound <= q <= bound) by (nonlinear_arith)
        requires
            n == d * q + r,
            0 <= r < d,
            -bound <= n <= bound,
            d > 0,
    ;
}

/// The later of two distances.
pub open spec fn farther(a: int, b: int) -> int {
    if a < b {
        b
    } else {
        a
    }
}

/// The earlier of two distances.
pub open spec fn nearer(a: int, b: int) -> int {
    if a < b {
        a
    } else {
        b
    }
}

/// Where the line through the origin in direction `angle` lies within a
/// disc of radius `r` whose centre is offset by `(wx, wy)` from the origin:
/// the centre's distance along the line, less and plus half the chord. There is
/// no crossing when the centre lies further than `r` off the line.
pub open spec fn disc_crossing(wx: int, wy: int, r: int, angle: Angle) -> Option<(i64, i64)> {
    let along = (wx * angle.cos + wy * angle.sin) / (ANGLE_ONE as int);
    let off = magnitude(wx * angle.sin - wy * angle.cos) / (ANGLE_ONE as int);
    if off > r {
        None
    } else {
        let half = sqrt_floor(r * r - off * off);
        Some(((along - half) as i64, (along + half) as i64))
    }
}

/// The distances between which a line is between two parallel borders
/// that lie `low` and `high` ahead of the origin along an axis, when the
/// line advances by `speed / ANGLE_ONE` along that axis for each step. A line
/// that does not advance along the axis is between the borders everywhere or
/// nowhere.
pub open spec fn slab(low: int, high: int, speed: int) -> Option<(i64, i64)> {
    if speed == 0 {
        if low <= 0 <= high {
            Some((i64::MIN, i64::MAX))
        } else {
            None
        }
    } else if speed > 0 {
        Some(((low * ANGLE_ONE / speed) as i64, (high * ANGLE_ONE / speed) as i64))
    } else {
        Some((((-high) * ANGLE_ONE / (-speed)) as i64, ((-low) * ANGLE_ONE / (-speed)) as i64))
    }
}

/// Where the line through the origin in direction `angle` lies within a
/// box of half extents `(w, h)` whose centre is offset by `(wx, wy)` from the
/// origin: where it is within the box along both axes. The borders of the box
/// belong to it.
pub open spec fn box_crossing(wx: int, wy: int, w: int, h: int, angle: Angle) -> Option<
    (i64, i64),
> {
    match (slab(wx - w, wx + w, angle.cos as int), slab(wy - h, wy + h, angle.sin as int)) {
        (Some(across), Some(upward)) => {
            let near = farther(across.0 as int, upward.0 as int);
            let far = nearer(across.1 as int, upward.1 as int);
            if near <= far {
                Some((near as i64, far as i64))
            } else {
                None
            }
        },
        _ => None,
    }
}

/// Where the line through `origin` in direction `angle` lies within the
/// shape placed at `pos`, as the distances of the near and the far end from
/// the origin, or nothing if the line misses the shape.
pub open spec fn crossing(shape: Shape, pos: Point, origin: Point, angle: Angle) -> Option<
    (i64, i64),
> {
    match shape {
        Shape::Circle(r) => disc_crossing(pos.x - origin.x, pos.y - origin.y, r as int, angle),
        Shape::Rectangle(w, h) => box_crossing(
            pos.x - origin.x,
            pos.y - origin.y,
            w as int,
            h as int,
            angle,
        ),
    }
}

fn disc_cross(wx: i64, wy: i64, r: u32, angle: Angle) -> (ends: Option<(i64, i64)>)
    requires
        -0x1_0000_0000 <= wx <= 0x1_0000_0000,
        -0x1_0000_0000 <= wy <= 0x1_0000_0000,
    ensures
        ends == disc_crossing(wx as int, wy as int, r as int, angle),
{
    let cos: i64 = angle.cos as i64;
    let sin: i64 = angle.sin as i64;
    assert(-0x8000_0000_0000 <= wx * cos <= 0x8000_0000_0000 && -0x8000_0000_0000 <= wy * sin
        <= 0x8000_0000_0000 && -0x8000_0000_0000 <= wx * sin <= 0x8000_0000_0000
        && -0x8000_0000_0000 <= wy * cos <= 0x8000_0000_0000) by (nonlinear_arith)
        requires
            -0x1_0000_0000 <= wx <= 0x1_0000_0000,
            -0x1_0000_0000 <= wy <= 0x1_0000_0000,
            -0x8000 <= cos <= 0x8000,
            -0x8000 <= sin <= 0x8000,
    ;
    let dot: i64 = wx * cos + wy * sin;
    let cross: i64 = wx * sin - wy * cos;
    let along: i64 = div_floor(dot as i128, ANGLE_ONE as i128) as i64;
    let aside: i64 = if cross < 0 {
        -cross
    } else {
        cross
    };
    let off: i64 = aside / ANGLE_ONE;
    if off > r as i64 {
        None
    } else {
        let wide: u128 = r as u128;
        let gap: u128 = off as u128;
        assert(gap * gap <= wide * wide <= 0xffff_ffff * 0xffff_ffff) by (nonlinear_arith)
            requires
                0 <= gap <= wide <= 0xffff_ffff,
        ;
        let half: i64 = isqrt(wide * wide - gap * gap) as i64;
        proof {
            assert(wide * wide - gap * gap < (wide + 1) * (wide + 1)) by (nonlinear_arith)
                requires
                    0 <= gap <= wide,
            ;
            lemma_sqrt_floor_below((wide * wide - gap * gap) as int, wide + 1);
        }
        Some((along - half, along + half))
    }
}

fn slab_cross(low: i64, high: i64, speed: i16) -> (ends: Option<(i64, i64)>)
    requires
        -0x2_0000_0000 <= low <= high <= 0x2_0000_0000,
    ensures
        ends == slab(low as int, high as int, speed as int),
{
    if speed == 0 {
        if low <= 0 && 0 <= high {
            Some((i64::MIN, i64::MAX))
        } else {
            None
        }
    } else if speed > 0 {
        let pace: i128 = speed as i128;
        let near: i128 = div_floor(low as i128 * 16384, pace);
        let far: i128 = div_floor(high as i128 * 16384, pace);
        proof {
            lemma_div_within(low * ANGLE_ONE, pace as int, 0x8000_0000_0000);
            lemma_div_within(high * ANGLE_ONE, pace as int, 0x8000_0000_0000);
        }
        Some((near as i64, far as i64))
    } else {
        let pace: i128 = -(speed as i128);
        let near: i128 = div_floor(-(high as i128) * 16384, pace);
        let far: i128 = div_floor(-(low as i128) * 16384, pace);
        proof {
            lemma_div_within((-high) * ANGLE_ONE, pace as int, 0x8000_0000_0000);
            lemma_div_within((-low) * ANGLE_ONE, pace as int, 0x8000_0000_0000);
        }
        Some((near as i64, far as i64))
    }
}

fn box_cross(wx: i64, wy: i64, w: u32, h: u32, angle: Angle) -> (ends: Option<(i64, i64)>)
    requires
        -0x1_0000_0000 <= wx <= 0x1_0000_0000,
        -0x1_0000_0000 <= wy <= 0x1_0000_0000,
    ensures
        ends == box_crossing(wx as int, wy as int, w as int, h as int, angle),
{
    let across = slab_cross(wx - w as i64, wx + w as i64, angle.cos);
    let upward = slab_cross(wy - h as i64, wy + h as i64, angle.sin);
    match (across, upward) {
        (Some(across), Some(upward)) => {
            let near: i64 = if across.0 < upward.0 {
                upward.0
            } else {
                across.0
            };
            let far: i64 = if across.1 < upward.1 {
                across.1
            } else {
                upward.1
            };
            if near <= far {
                Some((near, far))
            } else {
                None
            }
        },
        _ => None,
    }
}

impl Shape {
    /// Where the line through `origin` in direction `angle` lies within the
    /// shape placed at `pos`: the distances of the near and the far end from the
    /// origin, or nothing if the line misses the shape.
    pub fn raycast(&self, pos: Point, origin: Point, angle: Angle) -> (ends: Option<(i64, i64)>)
        ensures
            ends == crossing(*self, pos, origin, angle),
    {
        let wx: i64 = pos.x as i64 - origin.x as i64;
        let wy: i64 = pos.y as i64 - origin.y as i64;
        match *self {
            Shape::Circle(r) => disc_cross(wx, wy, r, angle),
            Shape::Rectangle(w, h) => box_cross(wx, wy, w, h, angle),
        }
    }
}

impl Angle {
    /// The way the direction mainly runs. A direction straight between two
    /// axes counts as upward or downward, and one that points nowhere as
    /// downward.
    pub open spec fn heading(self) -> Direction {
        if magnitude(self.cos as int) > magnitude(self.sin as int) {
            if self.cos < 0 {
                Direction::Left
            } else {
                Direction::Right
            }
        } else if self.sin > 0 {
            Direction::Up
        } else {
            Direction::Down
        }
    }

    /// The way the direction mainly runs: towards the nearest axis.
    pub fn direction(&self) -> (d: Direction)
        ensures
            d == self.heading(),
    {
        let across: i32 = if self.cos < 0 {
            -(self.cos as i32)
        } else {
            self.cos as i32
        };
        let upward: i32 = if self.sin < 0 {
            -(self.sin as i32)
        } else {
            self.sin as i32
        };
        if across > upward {
            if self.cos < 0 {
                Direction::Left
            } else {
                Direction::Right
            }
        } else if self.sin > 0 {
            Direction::Up
        } else {
            Direction::Down
        }
    }
}

/// A ray query as contracts see it: the query with its list of ids as a
/// sequence.
pub struct RayQuery {
    pub origin: Point,
    pub angle: Angle,
    pub length: u32,
    pub group: u32,
    pub mask: u32,
    pub not: Seq<u64>,
}

impl View for RayCast {
    type V = RayQuery;

    open spec fn view(&self) -> RayQuery {
        RayQuery {
            origin: self.origin,
            angle: self.angle,
            length: self.length,
            group: self.group,
            mask: self.mask,
            not: self.not@,
        }
    }
}

impl RayQuery {
    /// Whether the query takes the body as a candidate.
    pub open spec fn accepts(self, body: EntityInformation) -> bool {
        passes(body, self.group, self.mask, self.not)
    }

    /// What the ray reports of one body: the ends of the body's stretch of
    /// the ray's line, unless the line misses the shape or the whole stretch
    /// lies behind the origin or beyond the ray's length.
    pub open spec fn meet(self, body: EntityInformation) -> Option<RayHit> {
        match crossing(body.shape, body.pos, self.origin, self.angle) {
            Some(ends) => if ends.1 < 0 || ends.0 > self.length {
                None
            } else {
                Some(RayHit { entity: body, min: ends.0, max: ends.1 })
            },
            None => None,
        }
    }

    /// Horizontal coordinate of the ray's end.
    pub open spec fn end_x(self) -> int {
        self.origin.x + (self.length * self.angle.cos) / (ANGLE_ONE as int)
    }

    /// Vertical coordinate of the ray's end.
    pub open spec fn end_y(self) -> int {
        self.origin.y + (self.length * self.angle.sin) / (ANGLE_ONE as int)
    }

    /// Column of the cell in which the ray ends.
    pub open spec fn last_column(self) -> int {
        cell_floor(self.end_x())
    }

    /// Row of the cell in which the ray ends.
    pub open spec fn last_row(self) -> int {
        cell_floor(self.end_y())
    }

    /// How far the origin lies, along the horizontal axis, from the border
    /// through which a ray on its way to the last column leaves `column`.
    pub open spec fn border_x(self, column: int) -> int {
        if self.last_column() > column {
            (column + 1) * CELL_SIZE - self.origin.x
        } else {
            self.origin.x - column * CELL_SIZE
        }
    }

    /// How far the origin lies, along the vertical axis, from the border
    /// through which a ray on its way to the last row leaves `row`.
    pub open spec fn border_y(self, row: int) -> int {
        if self.last_row() > row {
            (row + 1) * CELL_SIZE - self.origin.y
        } else {
            self.origin.y - row * CELL_SIZE
        }
    }

    /// Whether the ray leaves the cell sideways, into the next column: it
    /// has not reached the last column, and either it is in the last row or
    /// it meets the side border no later than the border above or below.
    pub open spec fn leaves_across(self, column: int, row: int) -> bool {
        column != self.last_column() && (row == self.last_row() || self.border_x(column)
            * magnitude(self.end_y() - self.origin.y) <= self.border_y(row) * magnitude(
            self.end_x() - self.origin.x,
        ))
    }

    /// Whether the ray leaves the cell upward or downward, into the next
    /// row. Where it leaves through a corner it does both at once.
    pub open spec fn leaves_upward(self, column: int, row: int) -> bool {
        row != self.last_row() && (column == self.last_column() || self.border_y(row) * magnitude(
            self.end_x() - self.origin.x,
        ) <= self.border_x(column) * magnitude(self.end_y() - self.origin.y))
    }

    /// The distance along the ray at which it leaves the cell: the share of
    /// the length that the border takes of the ray's whole run along that axis.
    /// In the last cell it is the length.
    pub open spec fn leaves_at(self, column: int, row: int) -> int {
        if self.leaves_across(column, row) {
            self.border_x(column) * self.length / magnitude(self.end_x() - self.origin.x)
        } else if self.leaves_upward(column, row) {
            self.border_y(row) * self.length / magnitude(self.end_y() - self.origin.y)
        } else {
            self.length as int
        }
    }

    /// The cells on the ray's way from the given cell on, in travel order.
    pub open spec fn legs_from(self, column: int, row: int) -> Seq<Leg>
        decreases
            magnitude(self.last_column() - column) + magnitude(self.last_row() - row),
    {
        let leg = Leg {
            cell: Cell { x: column as i32, y: row as i32 },
            reach: self.leaves_at(column, row) as i64,
        };
        if column == self.last_column() && row == self.last_row() {
            seq![leg]
        } else {
            let next_column = if self.leaves_across(column, row) {
                column + side(self.last_column() - column)
            } else {
                column
            };
            let next_row = if self.leaves_upward(column, row) {
                row + side(self.last_row() - row)
            } else {
                row
            };
            seq![leg] + self.legs_from(next_column, next_row)
        }
    }

    /// Every cell that the ray passes through, in travel order, each with
    /// the distance at which the ray leaves it. A ray of length zero passes
    /// through no cell.
    pub open spec fn legs(self) -> Seq<Leg> {
        if self.length == 0 {
            Seq::empty()
        } else {
            self.legs_from(cell_floor(self.origin.x as int), cell_floor(self.origin.y as int))
        }
    }

    /// The ray's end is within reach of its origin.
    pub proof fn lemma_end(self)
        ensures
            -0x2_0000_0000 <= self.end_x() - self.origin.x <= 0x2_0000_0000,
            -0x2_0000_0000 <= self.end_y() - self.origin.y <= 0x2_0000_0000,
            -0x100_0000 <= self.last_column() <= 0x100_0000,
            -0x100_0000 <= self.last_row() <= 0x100_0000,
    {
        let c = self.angle.cos as int;
        let s = self.angle.sin as int;
        let l = self.length as int;
        assert(-0x8000_0000_0000 <= l * c <= 0x8000_0000_0000 && -0x8000_0000_0000 <= l * s
            <= 0x8000_0000_0000) by (nonlinear_arith)
            requires
                0 <= l <= 0xffff_ffff,
                -0x8000 <= c <= 0x8000,
                -0x8000 <= s <= 0x8000,
        ;
    }

}

impl RayCast {
    /// Every cell that the ray passes through, in travel order, each with
    /// the distance at which the ray leaves it.
    pub fn path(&self) -> (legs: Vec<Leg>)
        ensures
            legs@ == self@.legs(),
    {
        let mut legs: Vec<Leg> = Vec::new();
        if self.length == 0 {
            return legs;
        }
        proof {
            self@.lemma_end();
        }
        let length: i128 = self.length as i128;
        let ox: i64 = self.origin.x as i64;
        let oy: i64 = self.origin.y as i64;
        let run_x: i64 = div_floor(length * self.angle.cos as i128, ANGLE_ONE as i128) as i64;
        let run_y: i64 = div_floor(length * self.angle.sin as i128, ANGLE_ONE as i128) as i64;
        let last_column: i64 = floor_cell(ox + run_x);
        let last_row: i64 = floor_cell(oy + run_y);
        let first_column: i64 = floor_cell(ox);
        let first_row: i64 = floor_cell(oy);
        let span_x: i128 = if run_x < 0 {
            -(run_x as i128)
        } else {
            run_x as i128
        };
        let span_y: i128 = if run_y < 0 {
            -(run_y as i128)
        } else {
            run_y as i128
        };
        let mut column: i64 = first_column;
        let mut row: i64 = first_row;
        while column != last_column || row != last_row
            invariant
                self.length > 0,
                length == self.length,
                ox == self.origin.x,
                oy == self.origin.y,
                run_x == self@.end_x() - self.origin.x,
                run_y == self@.end_y() - self.origin.y,
                span_x == magnitude(run_x as int),
                span_y == magnitude(run_y as int),
                -0x2_0000_0000 <= run_x <= 0x2_0000_0000,
                -0x2_0000_0000 <= run_y <= 0x2_0000_0000,
                last_column == self@.last_column(),
                last_row == self@.last_row(),
                first_column == cell_floor(self.origin.x as int),
                first_row == cell_floor(self.origin.y as int),
                first_column <= column <= last_column || last_column <= column <= first_column,
                first_row <= row <= last_row || last_row <= row <= first_row,
                -0x100_0000 <= last_column <= 0x100_0000,
                -0x100_0000 <= last_row <= 0x100_0000,
                self@.legs() == legs@ + self@.legs_from(column as int, row as int),
            decreases
                magnitude(last_column - column) + magnitude(last_row - row),
        {
            let border_x: i128 = if last_column > column {
                ((column + 1) * CELL_SIZE - ox) as i128
            } else {
                (ox - column * CELL_SIZE) as i128
            };
            let border_y: i128 = if last_row > row {
                ((row + 1) * CELL_SIZE - oy) as i128
            } else {
                (oy - row * CELL_SIZE) as i128
            };
            assert(border_x == self@.border_x(column as int));
            assert(border_y == self@.border_y(row as int));
            assert(-0x8_0000_0000 <= border_x <= 0x8_0000_0000);
            assert(-0x8_0000_0000 <= border_y <= 0x8_0000_0000);
            assert(column != last_column ==> 0 <= border_x <= span_x);
            assert(row != last_row ==> 0 <= border_y <= span_y);
            assert(-0x8_0000_0000 * 0x2_0000_0000 <= border_x * span_y <= 0x8_0000_0000
                * 0x2_0000_0000 && -0x8_0000_0000 * 0x2_0000_0000 <= border_y * span_x
                <= 0x8_0000_0000 * 0x2_0000_0000 && -0x8_0000_0000 * 0x1_0000_0000 <= border_x
                * length <= 0x8_0000_0000 * 0x1_0000_0000 && -0x8_0000_0000 * 0x1_0000_0000
                <= border_y * length <= 0x8_0000_0000 * 0x1_0000_0000) by (nonlinear_arith)
                requires
                    -0x8_0000_0000 <= border_x <= 0x8_0000_0000,
                    -0x8_0000_0000 <= border_y <= 0x8_0000_0000,
                    0 <= span_x <= 0x2_0000_0000,
                    0 <= span_y <= 0x2_0000_0000,
                    0 <= length <= 0x1_0000_0000,
            ;
            let side_first: i128 = border_x * span_y;
            let floor_first: i128 = border_y * span_x;
            let across: bool = column != last_column && (row == last_row || side_first
                <= floor_first);
            let upward: bool = row != last_row && (column == last_column || floor_first
                <= side_first);
            assert(across == self@.leaves_across(column as int, row as int));
            assert(upward == self@.leaves_upward(column as int, row as int));
            let reach: i64 = if across {
                proof {
                    assert(border_x * length <= length * span_x) by (nonlinear_arith)
                        requires
                            0 <= border_x <= span_x,
                            0 <= length,
                    ;
                    lemma_div_bounds(border_x * length, span_x as int, length as int);
                }
                div_floor(border_x * length, span_x) as i64
            } else {
                proof {
                    assert(border_y * length <= length * span_y) by (nonlinear_arith)
                        requires
                            0 <= border_y <= span_y,
                            0 <= length,
                    ;
                    lemma_div_bounds(border_y * length, span_y as int, length as int);
                }
                div_floor(border_y * length, span_y) as i64
            };
            assert(reach == self@.leaves_at(column as int, row as int));
            let ghost here_column = column as int;
            let ghost here_row = row as int;
            let ghost before = legs@;
            legs.push(Leg { cell: Cell { x: column as i32, y: row as i32 }, reach });
            if across {
                if last_column > column {
                    column = column + 1;
                } else {
                    column = column - 1;
                }
            }
            if upward {
                if last_row > row {
                    row = row + 1;
                } else {
                    row = row - 1;
                }
            }
            proof {
                let leg = Leg {
                    cell: Cell { x: here_column as i32, y: here_row as i32 },
                    reach: self@.leaves_at(here_column, here_row) as i64,
                };
                assert(self@.legs_from(here_column, here_row) == seq![leg] + self@.legs_from(
                    column as int,
                    row as int,
                ));
                assert(legs@ + self@.legs_from(column as int, row as int) =~= before + (seq![leg]
                    + self@.legs_from(column as int, row as int)));
            }
        }
        proof {
            let leg = Leg {
                cell: Cell { x: column as i32, y: row as i32 },
                reach: self@.leaves_at(column as int, row as int) as i64,
            };
            assert(self@.legs_from(column as int, row as int) == seq![leg]);
            assert(legs@.push(leg) =~= legs@ + seq![leg]);
        }
        legs.push(Leg { cell: Cell { x: column as i32, y: row as i32 }, reach: self.length as i64 });
        legs
    }
}

/// Whether cell `next` lies one step from cell `here` on a way to cell
/// `to`: along each axis it stays or moves one cell towards `to`, and it
/// does not stay along both.
pub open spec fn steps_towards(here: Cell, next: Cell, to: Cell) -> bool {
    &&& next.x == here.x || next.x == here.x + side(to.x - here.x)
    &&& next.y == here.y || next.y == here.y + side(to.y - here.y)
    &&& next != here
}

impl RayQuery {
    /// The cell in which the ray ends.
    pub open spec fn last_cell(self) -> Cell {
        Cell { x: self.last_column() as i32, y: self.last_row() as i32 }
    }

    /// The way from a cell to the end of the ray starts in that cell, ends
    /// in the cell of the ray's end at the ray's length, and goes there step by
    /// step without turning back.
    pub proof fn lemma_legs_from(self, column: int, row: int)
        requires
            -0x100_0000 <= column <= 0x100_0000,
            -0x100_0000 <= row <= 0x100_0000,
        ensures
            self.legs_from(column, row).len() >= 1,
            self.legs_from(column, row).len() <= 1 + magnitude(self.last_column() - column)
                + magnitude(self.last_row() - row),
            self.legs_from(column, row)[0].cell == (Cell { x: column as i32, y: row as i32 }),
            self.legs_from(column, row).last().cell == self.last_cell(),
            self.legs_from(column, row).last().reach == self.length,
            forall|k: int|
                0 <= k < self.legs_from(column, row).len() - 1 ==> steps_towards(
                    (#[trigger] self.legs_from(column, row)[k]).cell,
                    self.legs_from(column, row)[k + 1].cell,
                    self.last_cell(),
                ),
        decreases magnitude(self.last_column() - column) + magnitude(self.last_row() - row),
    {
        self.lemma_end();
        let legs = self.legs_from(column, row);
        if !(column == self.last_column() && row == self.last_row()) {
            let next_column = if self.leaves_across(column, row) {
                column + side(self.last_column() - column)
            } else {
                column
            };
            let next_row = if self.leaves_upward(column, row) {
                row + side(self.last_row() - row)
            } else {
                row
            };
            assert(self.leaves_across(column, row) || self.leaves_upward(column, row));
            self.lemma_legs_from(next_column, next_row);
            let rest = self.legs_from(next_column, next_row);
            assert(legs.len() == rest.len() + 1);
            assert(legs[0].cell == (Cell { x: column as i32, y: row as i32 }));
            assert(legs.last() == rest.last());
            assert forall|k: int| 0 <= k < legs.len() - 1 implies steps_towards(
                (#[trigger] legs[k]).cell,
                legs[k + 1].cell,
                self.last_cell(),
            ) by {
                if k == 0 {
                    assert(legs[1] == rest[0]);
                } else {
                    assert(legs[k] == rest[k - 1]);
                    assert(legs[k + 1] == rest[k]);
                }
            }
        }
    }

    /// The way of a ray with some length starts in the cell of its origin,
    /// ends in the cell of its end at its length, and goes there step by step
    /// without turning back.
    pub proof fn lemma_legs(self)
        requires
            self.length > 0,
        ensures
            self.legs().len() >= 1,
            self.legs()[0].cell == cell_of(self.origin),
            self.legs().last().cell == self.last_cell(),
            self.legs().last().reach == self.length,
            forall|k: int|
                0 <= k < self.legs().len() - 1 ==> steps_towards(
                    (#[trigger] self.legs()[k]).cell,
                    self.legs()[k + 1].cell,
                    self.last_cell(),
                ),
    {
        self.lemma_legs_from(cell_floor(self.origin.x as int), cell_floor(self.origin.y as int));
    }
}

/// Of two fractions with positive denominators, the one that is no
/// larger has a rounded-down value that is no larger.
proof fn lemma_floor_order(x: int, b: int, y: int, d: int)
    requires
        b > 0,
        d > 0,
        0 <= x,
        x * d <= y * b,
    ensures
        x / b <= y / d,
{
    lemma_fundamental_div_mod(x, b);
    lemma_mod_bound(x, b);
    lemma_fundamental_div_mod(y, d);
    lemma_mod_bound(y, d);
    let q = x / b;
    let r = x % b;
    let p = y / d;
    let t = y % d;
    assert(q <= p) by (nonlinear_arith)
        requires
            x == b * q + r,
            0 <= r < b,
            y == d * p + t,
            0 <= t < d,
            b > 0,
            d > 0,
            0 <= x,
            x * d <= y * b,
    ;
}

impl RayQuery {
    /// Whether a cell lies between the cell of the ray's origin and the
    /// cell of its end, along both axes.
    pub open spec fn on_way(self, column: int, row: int) -> bool {
        let first_column = cell_floor(self.origin.x as int);
        let first_row = cell_floor(self.origin.y as int);
        &&& first_column <= column <= self.last_column() || self.last_column() <= column
            <= first_column
        &&& first_row <= row <= self.last_row() || self.last_row() <= row <= first_row
    }

    /// The column of the cell that follows on the ray's way.
    pub open spec fn next_column(self, column: int, row: int) -> int {
        if self.leaves_across(column, row) {
            column + side(self.last_column() - column)
        } else {
            column
        }
    }

    /// The row of the cell that follows on the ray's way.
    pub open spec fn next_row(self, column: int, row: int) -> int {
        if self.leaves_upward(column, row) {
            row + side(self.last_row() - row)
        } else {
            row
        }
    }

    /// Before the last column, the border through which the ray leaves a
    /// column lies ahead of the origin and no further than the ray's end.
    pub(crate) proof fn lemma_border_x(self, column: int, row: int)
        requires
            self.on_way(column, row),
            column != self.last_column(),
        ensures
            0 <= self.border_x(column) <= magnitude(self.end_x() - self.origin.x),
            magnitude(self.end_x() - self.origin.x) > 0,
            self.on_way(column + side(self.last_column() - column), row),
            column + side(self.last_column() - column) != self.last_column() ==> self.border_x(
                column + side(self.last_column() - column),
            ) == self.border_x(column) + CELL_SIZE,
    {
    }

    /// Before the last row, the border through which the ray leaves a row
    /// lies ahead of the origin and no further than the ray's end.
    pub(crate) proof fn lemma_border_y(self, column: int, row: int)
        requires
            self.on_way(column, row),
            row != self.last_row(),
        ensures
            0 <= self.border_y(row) <= magnitude(self.end_y() - self.origin.y),
            magnitude(self.end_y() - self.origin.y) > 0,
            self.on_way(column, row + side(self.last_row() - row)),
            row + side(self.last_row() - row) != self.last_row() ==> self.border_y(
                row + side(self.last_row() - row),
            ) == self.border_y(row) + CELL_SIZE,
    {
    }

    /// The ray leaves every cell on its way at a distance between zero and
    /// its length.
    pub proof fn lemma_leaves_within(self, column: int, row: int)
        requires
            self.on_way(column, row),
        ensures
            0 <= self.leaves_at(column, row) <= self.length,
    {
        let length = self.length as int;
        if self.leaves_across(column, row) {
            self.lemma_border_x(column, row);
            let border = self.border_x(column);
            let span = magnitude(self.end_x() - self.origin.x);
            assert(0 <= border * length <= length * span) by (nonlinear_arith)
                requires
                    0 <= border <= span,
                    0 <= length,
            ;
            lemma_div_bounds(border * length, span, length);
        } else if self.leaves_upward(column, row) {
            self.lemma_border_y(column, row);
            let border = self.border_y(row);
            let span = magnitude(self.end_y() - self.origin.y);
            assert(0 <= border * length <= length * span) by (nonlinear_arith)
                requires
                    0 <= border <= span,
                    0 <= length,
            ;
            lemma_div_bounds(border * length, span, length);
        }
    }

    /// The ray leaves a cell on its way no later than it leaves the cell
    /// that follows.
    pub proof fn lemma_leaves_in_order(self, column: int, row: int)
        requires
            self.on_way(column, row),
            !(column == self.last_column() && row == self.last_row()),
        ensures
            self.on_way(self.next_column(column, row), self.next_row(column, row)),
            self.leaves_at(column, row) <= self.leaves_at(
                self.next_column(column, row),
                self.next_row(column, row),
            ),
    {
        let length = self.length as int;
        let to_column = self.next_column(column, row);
        let to_row = self.next_row(column, row);
        let span_x = magnitude(self.end_x() - self.origin.x);
        let span_y = magnitude(self.end_y() - self.origin.y);
        let across = self.leaves_across(column, row);
        let upward = self.leaves_upward(column, row);
        if column != self.last_column() {
            self.lemma_border_x(column, row);
        }
        if row != self.last_row() {
            self.lemma_border_y(column, row);
        }
        assert(across || upward);
        assert(self.on_way(to_column, to_row));
        self.lemma_leaves_within(column, row);
        self.lemma_leaves_within(to_column, to_row);
        let bx = self.border_x(column);
        let by = self.border_y(row);
        if self.leaves_across(to_column, to_row) {
            let next = self.border_x(to_column);
            assert(bx <= next);
            if across {
                assert(bx * length * span_x <= next * length * span_x) by (nonlinear_arith)
                    requires
                        0 <= bx <= next,
                        0 <= length,
                        0 <= span_x,
                ;
                lemma_floor_order(bx * length, span_x, next * length, span_x);
            } else {
                assert(by * span_x <= bx * span_y);
                assert(0 <= by * length && by * length * span_x <= bx * length * span_y)
                    by (nonlinear_arith)
                    requires
                        by * span_x <= bx * span_y,
                        0 <= length,
                        0 <= by,
                ;
                lemma_floor_order(by * length, span_y, bx * length, span_x);
            }
        } else if self.leaves_upward(to_column, to_row) {
            let next = self.border_y(to_row);
            assert(by <= next);
            if across {
                assert(bx * span_y <= by * span_x);
                assert(0 <= bx * length && bx * length * span_y <= next * length * span_x)
                    by (nonlinear_arith)
                    requires
                        bx * span_y <= by * span_x,
                        by <= next,
                        0 <= span_x,
                        0 <= length,
                        0 <= bx,
                ;
                lemma_floor_order(bx * length, span_x, next * length, span_y);
            } else {
                assert(0 <= by * length && by * length * span_y <= next * length * span_y)
                    by (nonlinear_arith)
                    requires
                        0 <= by <= next,
                        0 <= length,
                        0 <= span_y,
                ;
                lemma_floor_order(by * length, span_y, next * length, span_y);
            }
        }
    }

    /// Along the way from a cell between the ray's origin and its end, the
    /// distances at which the ray leaves the cells lie between zero and the
    /// ray's length and never decrease.
    pub proof fn lemma_reaches_from(self, column: int, row: int)
        requires
            self.on_way(column, row),
        ensures
            forall|k: int|
                0 <= k < self.legs_from(column, row).len() ==> 0 <= (
                #[trigger] self.legs_from(column, row)[k]).reach <= self.length,
            forall|j: int, k: int|
                0 <= j <= k < self.legs_from(column, row).len() ==> (
                #[trigger] self.legs_from(column, row)[j]).reach <= (
                #[trigger] self.legs_from(column, row)[k]).reach,
            self.legs_from(column, row)[0].reach == self.leaves_at(column, row),
        decreases magnitude(self.last_column() - column) + magnitude(self.last_row() - row),
    {
        let legs = self.legs_from(column, row);
        self.lemma_leaves_within(column, row);
        if !(column == self.last_column() && row == self.last_row()) {
            let to_column = self.next_column(column, row);
            let to_row = self.next_row(column, row);
            self.lemma_leaves_in_order(column, row);
            self.lemma_reaches_from(to_column, to_row);
            let rest = self.legs_from(to_column, to_row);
            assert(legs.len() == rest.len() + 1);
            assert forall|k: int| 0 <= k < legs.len() implies 0 <= (#[trigger] legs[k]).reach
                <= self.length by {
                if k > 0 {
                    assert(legs[k] == rest[k - 1]);
                }
            }
            assert forall|j: int, k: int| 0 <= j <= k < legs.len() implies (
            #[trigger] legs[j]).reach <= (#[trigger] legs[k]).reach by {
                if j > 0 {
                    assert(legs[j] == rest[j - 1]);
                    assert(legs[k] == rest[k - 1]);
                } else if k > 0 {
                    assert(legs[k] == rest[k - 1]);
                    assert(rest[0].reach <= rest[k - 1].reach);
                }
            }
        }
    }

    /// The distances at which a ray leaves the cells on its way lie between
    /// zero and the ray's length and never decrease.
    pub proof fn lemma_reaches(self)
        ensures
            forall|k: int|
                0 <= k < self.legs().len() ==> 0 <= (#[trigger] self.legs()[k]).reach
                    <= self.length,
            forall|j: int, k: int|
                0 <= j <= k < self.legs().len() ==> (#[trigger] self.legs()[j]).reach <= (
                #[trigger] self.legs()[k]).reach,
    {
        if self.length > 0 {
            self.lemma_reaches_from(
                cell_floor(self.origin.x as int),
                cell_floor(self.origin.y as int),
            );
        }
    }
}

} // verus!
