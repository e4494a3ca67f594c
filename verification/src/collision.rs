//! The narrow phase: the exact test of two placed shapes against each other.
//!
//! Two shapes are in contact only when they share inner area. Shapes that
//! merely touch, such as two discs whose centres are exactly the sum of their
//! radii apart, are not in contact. The answer for `(a, b)` is always the
//! answer for `(b, a)` with the normal turned around.

use vstd::prelude::*;
use crate::geometry::cell_floor;
use crate::geometry::Cell;
use crate::geometry::Point;
use crate::geometry::Shape;

verus! {

/// What the narrow phase reports of two shapes in contact.
#[derive(Clone, Copy, PartialEq, Eq, Structural, Debug)]
pub struct Collision {
    /// Direction from the first shape towards the second. Between two
    /// rectangles it is a unit step along one axis; where a disc is involved it
    /// is the offset between the two nearest points and has no fixed length.
    /// It is zero along an axis on which the centres agree.
    pub normal_x: i64,
    pub normal_y: i64,
    /// How far the shapes reach into each other along the normal, at least 1.
    pub depth: i64,
}

/// `r` is the square root of `n`, rounded down.
pub open spec fn is_sqrt_floor(n: int, r: int) -> bool {
    0 <= r && r * r <= n < (r + 1) * (r + 1)
}

/// The square root of `n`, rounded down.
pub open spec fn sqrt_floor(n: int) -> int {
    choose|r: int| is_sqrt_floor(n, r)
}

/// A number has at most one rounded-down square root.
pub proof fn lemma_sqrt_floor_unique(n: int, r: int, s: int)
    requires
        is_sqrt_floor(n, r),
        is_sqrt_floor(n, s),
    ensures
        r == s,
{
    if r < s {
        assert((r + 1) * (r + 1) <= s * s) by (nonlinear_arith)
            requires
                0 <= r,
                r + 1 <= s,
        ;
    }
    if s < r {
        assert((s + 1) * (s + 1) <= r * r) by (nonlinear_arith)
            requires
                0 <= s,
                s + 1 <= r,
        ;
    }
}

/// Every number from 0 on has a rounded-down square root, and `sqrt_floor` is it.
pub proof fn lemma_sqrt_floor(n: int)
    requires
        0 <= n,
    ensures
        is_sqrt_floor(n, sqrt_floor(n)),
    decreases n,
{
    if n == 0 {
        assert(is_sqrt_floor(0, 0));
    } else {
        lemma_sqrt_floor(n - 1);
        let r = sqrt_floor(n - 1);
        if n < (r + 1) * (r + 1) {
            assert(is_sqrt_floor(n, r));
        } else {
            assert((r + 1) * (r + 1) <= n < (r + 2) * (r + 2)) by (nonlinear_arith)
                requires
                    0 <= r,
                    r * r <= n - 1 < (r + 1) * (r + 1),
                    n >= (r + 1) * (r + 1),
            ;
            assert(is_sqrt_floor(n, r + 1));
        }
    }
}

/// The square root stays below any bound whose square the number stays below.
pub proof fn lemma_sqrt_floor_below(n: int, bound: int)
    requires
        0 <= n < bound * bound,
        0 <= bound,
    ensures
        0 <= sqrt_floor(n) < bound,
{
    lemma_sqrt_floor(n);
    let r = sqrt_floor(n);
    if r >= bound {
        assert(bound * bound <= r * r) by (nonlinear_arith)
            requires
                0 <= bound <= r,
        ;
    }
}

/// The square root of `n`, rounded down.
pub fn isqrt(n: u128) -> (r: u64)
    ensures
        r == sqrt_floor(n as int),
        is_sqrt_floor(n as int, r as int),
{
    let mut lo: u128 = 0;
    let mut hi: u128 = 0x1_0000_0000_0000_0000;
    assert(n < hi * hi) by (nonlinear_arith)
        requires
            hi == 0x1_0000_0000_0000_0000,
            n <= u128::MAX,
    ;
    while hi - lo > 1
        invariant
            lo < hi <= 0x1_0000_0000_0000_0000,
            lo * lo <= n < hi * hi,
        decreases hi - lo,
    {
        let mid: u128 = lo + (hi - lo) / 2;
        assert(mid * mid <= 0xffff_ffff_ffff_ffff * 0xffff_ffff_ffff_ffff) by (nonlinear_arith)
            requires
                0 <= mid <= 0xffff_ffff_ffff_ffff,
        ;
        if mid * mid <= n {
            lo = mid;
        } else {
            hi = mid;
        }
    }
    proof {
        assert(is_sqrt_floor(n as int, lo as int));
        lemma_sqrt_floor(n as int);
        lemma_sqrt_floor_unique(n as int, lo as int, sqrt_floor(n as int));
    }
    lo as u64
}

/// Distance of `v` from zero.
pub open spec fn magnitude(v: int) -> int {
    if v < 0 {
        -v
    } else {
        v
    }
}

/// The side of zero that `v` lies on: -1, 0 or 1.
pub open spec fn side(v: int) -> int {
    if v < 0 {
        -1
    } else if v > 0 {
        1
    } else {
        0
    }
}

/// The part of `v` that lies outside `-half ..= half`.
pub open spec fn excess(v: int, half: int) -> int {
    if v > half {
        v - half
    } else if v < -half {
        v + half
    } else {
        0
    }
}

impl Collision {
    /// The same contact seen from the other shape.
    pub open spec fn reversed(self) -> Collision {
        Collision { normal_x: (-self.normal_x) as i64, normal_y: (-self.normal_y) as i64, depth: self.depth }
    }
}

/// A possible contact seen from the other shape.
pub open spec fn turned(c: Option<Collision>) -> Option<Collision> {
    match c {
        Some(c) => Some(c.reversed()),
        None => None,
    }
}

/// Contact of two discs: they overlap when their centres are closer than
/// the sum of the radii.
pub open spec fn disc_disc(a: Point, ra: int, b: Point, rb: int) -> Option<Collision> {
    let dx = b.x - a.x;
    let dy = b.y - a.y;
    let apart = dx * dx + dy * dy;
    let reach = ra + rb;
    if apart < reach * reach {
        Some(
            Collision {
                normal_x: dx as i64,
                normal_y: dy as i64,
                depth: (reach - sqrt_floor(apart)) as i64,
            },
        )
    } else {
        None
    }
}

/// Contact of two boxes given by half extents: they overlap when they do so
/// along both axes. The normal lies along the axis of least overlap, and
/// along the vertical one when both overlaps are equal.
pub open spec fn box_box(a: Point, wa: int, ha: int, b: Point, wb: int, hb: int) -> Option<
    Collision,
> {
    let dx = b.x - a.x;
    let dy = b.y - a.y;
    let over_x = wa + wb - magnitude(dx);
    let over_y = ha + hb - magnitude(dy);
    if over_x > 0 && over_y > 0 {
        if over_x < over_y {
            Some(Collision { normal_x: side(dx) as i64, normal_y: 0, depth: over_x as i64 })
        } else {
            Some(Collision { normal_x: 0, normal_y: side(dy) as i64, depth: over_y as i64 })
        }
    } else {
        None
    }
}

/// Contact of a disc (first) and a box (second). With the centre of the disc
/// inside the box or on its border, the disc counts as the square around it.
/// Otherwise the disc overlaps when the nearest point of the box is closer to
/// the centre than the radius.
pub open spec fn disc_box(c: Point, r: int, b: Point, w: int, h: int) -> Option<Collision> {
    let out_x = excess(c.x - b.x, w);
    let out_y = excess(c.y - b.y, h);
    if out_x == 0 && out_y == 0 {
        box_box(c, r, r, b, w, h)
    } else {
        let apart = out_x * out_x + out_y * out_y;
        if apart < r * r {
            Some(
                Collision {
                    normal_x: (-out_x) as i64,
                    normal_y: (-out_y) as i64,
                    depth: (r - sqrt_floor(apart)) as i64,
                },
            )
        } else {
            None
        }
    }
}

/// The contact of shape `sa` at `a` with shape `sb` at `b`, if there is one.
pub open spec fn contact(a: Point, sa: Shape, b: Point, sb: Shape) -> Option<Collision> {
    match (sa, sb) {
        (Shape::Circle(ra), Shape::Circle(rb)) => disc_disc(a, ra as int, b, rb as int),
        (Shape::Rectangle(wa, ha), Shape::Rectangle(wb, hb)) => box_box(
            a,
            wa as int,
            ha as int,
            b,
            wb as int,
            hb as int,
        ),
        (Shape::Circle(r), Shape::Rectangle(w, h)) => disc_box(a, r as int, b, w as int, h as int),
        (Shape::Rectangle(w, h), Shape::Circle(r)) => turned(
            disc_box(b, r as int, a, w as int, h as int),
        ),
    }
}

/// A squared offset below a squared reach means an offset below the reach.
proof fn lemma_within_reach(x: int, y: int, reach: int)
    requires
        x * x + y * y < reach * reach,
        0 <= reach,
    ensures
        magnitude(x) < reach,
        magnitude(y) < reach,
{
    assert(magnitude(x) < reach && magnitude(y) < reach) by (nonlinear_arith)
        requires
            x * x + y * y < reach * reach,
            0 <= reach,
    ;
}

/// Turning a contact around twice gives the contact back.
proof fn lemma_turned_twice(c: Option<Collision>)
    requires
        c is Some ==> -0x2_0000_0000 <= c.unwrap().normal_x <= 0x2_0000_0000 && -0x2_0000_0000
            <= c.unwrap().normal_y <= 0x2_0000_0000,
    ensures
        turned(turned(c)) == c,
{
}

/// Symmetry of the narrow phase: testing the shapes in the other order
/// gives a contact exactly when the first order does, with the same depth
/// and the normal turned around.
pub proof fn lemma_contact_symmetric(a: Point, sa: Shape, b: Point, sb: Shape)
    ensures
        contact(b, sb, a, sa) == turned(contact(a, sa, b, sb)),
{
    let dx = b.x - a.x;
    let dy = b.y - a.y;
    match (sa, sb) {
        (Shape::Circle(ra), Shape::Circle(rb)) => {
            assert((-dx) * (-dx) == dx * dx) by (nonlinear_arith);
            assert((-dy) * (-dy) == dy * dy) by (nonlinear_arith);
            assert(a.x - b.x == -dx);
            assert(a.y - b.y == -dy);
        },
        (Shape::Rectangle(wa, ha), Shape::Rectangle(wb, hb)) => {},
        (Shape::Circle(r), Shape::Rectangle(w, h)) => {},
        (Shape::Rectangle(w, h), Shape::Circle(r)) => {
            lemma_turned_twice(disc_box(b, r as int, a, w as int, h as int));
        },
    }
}

/// Shapes in contact reach into each other by at least one step.
pub proof fn lemma_contact_depth(a: Point, sa: Shape, b: Point, sb: Shape)
    requires
        contact(a, sa, b, sb) is Some,
    ensures
        contact(a, sa, b, sb).unwrap().depth >= 1,
{
    match (sa, sb) {
        (Shape::Circle(ra), Shape::Circle(rb)) => {
            let dx = b.x - a.x;
            let dy = b.y - a.y;
            assert(dx * dx + dy * dy >= 0) by (nonlinear_arith);
            lemma_sqrt_floor_below(dx * dx + dy * dy, ra + rb);
        },
        (Shape::Rectangle(wa, ha), Shape::Rectangle(wb, hb)) => {},
        (Shape::Circle(r), Shape::Rectangle(w, h)) => {
            let ox = excess(a.x - b.x, w as int);
            let oy = excess(a.y - b.y, h as int);
            assert(ox * ox + oy * oy >= 0) by (nonlinear_arith);
            if !(ox == 0 && oy == 0) {
                lemma_sqrt_floor_below(ox * ox + oy * oy, r as int);
            }
        },
        (Shape::Rectangle(w, h), Shape::Circle(r)) => {
            let ox = excess(b.x - a.x, w as int);
            let oy = excess(b.y - a.y, h as int);
            assert(ox * ox + oy * oy >= 0) by (nonlinear_arith);
            if !(ox == 0 && oy == 0) {
                lemma_sqrt_floor_below(ox * ox + oy * oy, r as int);
            }
        },
    }
}

/// Whether the bounding boxes of two placed shapes share inner area.
pub open spec fn boxes_overlap(a: Point, sa: Shape, b: Point, sb: Shape) -> bool {
    &&& magnitude(b.x - a.x) < sa.half_width() + sb.half_width()
    &&& magnitude(b.y - a.y) < sa.half_height() + sb.half_height()
}

/// Shapes in contact have bounding boxes that share inner area.
pub proof fn lemma_contact_boxes_overlap(a: Point, sa: Shape, b: Point, sb: Shape)
    requires
        contact(a, sa, b, sb) is Some,
    ensures
        boxes_overlap(a, sa, b, sb),
{
    match (sa, sb) {
        (Shape::Circle(ra), Shape::Circle(rb)) => {
            lemma_within_reach(b.x - a.x, b.y - a.y, ra + rb);
        },
        (Shape::Rectangle(wa, ha), Shape::Rectangle(wb, hb)) => {},
        (Shape::Circle(r), Shape::Rectangle(w, h)) => {
            let ox = excess(a.x - b.x, w as int);
            let oy = excess(a.y - b.y, h as int);
            if !(ox == 0 && oy == 0) {
                lemma_within_reach(ox, oy, r as int);
            }
        },
        (Shape::Rectangle(w, h), Shape::Circle(r)) => {
            let ox = excess(b.x - a.x, w as int);
            let oy = excess(b.y - a.y, h as int);
            if !(ox == 0 && oy == 0) {
                lemma_within_reach(ox, oy, r as int);
            }
        },
    }
}

/// The later of the two lower bounds of two intervals.
pub open spec fn later(a: int, b: int) -> int {
    if a < b {
        b
    } else {
        a
    }
}

/// A cell that both shapes cover when their bounding boxes share inner
/// area: the one that holds the lower left corner of the shared area.
pub open spec fn shared_cell(a: Point, sa: Shape, b: Point, sb: Shape) -> Cell {
    Cell {
        x: cell_floor(later(a.x - sa.half_width(), b.x - sb.half_width())) as i32,
        y: cell_floor(later(a.y - sa.half_height(), b.y - sb.half_height())) as i32,
    }
}

/// Shapes in contact cover a common cell, so a grid that records each
/// shape in every cell it covers brings them together. A shape that covers no
/// cell at all (one without width or height that lies on a grid line) is
/// left out: it shares no cell with anything.
pub proof fn lemma_contact_shares_cell(a: Point, sa: Shape, b: Point, sb: Shape)
    requires
        contact(a, sa, b, sb) is Some,
        sa.columns(a) > 0 && sa.rows(a) > 0,
        sb.columns(b) > 0 && sb.rows(b) > 0,
    ensures
        sa.covers(a, shared_cell(a, sa, b, sb)),
        sb.covers(b, shared_cell(a, sa, b, sb)),
{
    lemma_contact_boxes_overlap(a, sa, b, sb);
    let left = later(a.x - sa.half_width(), b.x - sb.half_width());
    let low = later(a.y - sa.half_height(), b.y - sb.half_height());
    let col = cell_floor(left);
    let row = cell_floor(low);
    assert(col * 1024 <= left < (col + 1) * 1024);
    assert(row * 1024 <= low < (row + 1) * 1024);
    assert(col as i32 == col && row as i32 == row);
    assert(col * 1024 < a.x + sa.half_width());
    assert(col * 1024 < b.x + sb.half_width());
    assert(row * 1024 < a.y + sa.half_height());
    assert(row * 1024 < b.y + sb.half_height());
}

fn side_of(v: i64) -> (s: i64)
    ensures
        s == side(v as int),
{
    if v < 0 {
        -1
    } else if v > 0 {
        1
    } else {
        0
    }
}

fn magnitude_of(v: i64) -> (m: i64)
    requires
        v > i64::MIN,
    ensures
        m == magnitude(v as int),
{
    if v < 0 {
        -v
    } else {
        v
    }
}

fn excess_of(v: i64, half: i64) -> (e: i64)
    requires
        -0x1_0000_0000 <= v <= 0x1_0000_0000,
        0 <= half <= 0x1_0000_0000,
    ensures
        e == excess(v as int, half as int),
        magnitude(e as int) <= magnitude(v as int),
{
    if v > half {
        v - half
    } else if v < -half {
        v + half
    } else {
        0
    }
}

/// Sum of the squares of two offsets.
fn square_sum(x: i64, y: i64) -> (s: u128)
    requires
        -0x1_0000_0000 <= x <= 0x1_0000_0000,
        -0x1_0000_0000 <= y <= 0x1_0000_0000,
    ensures
        s == x * x + y * y,
{
    let mx: u128 = magnitude_of(x) as u128;
    let my: u128 = magnitude_of(y) as u128;
    assert(mx * mx == x * x && mx * mx <= 0x1_0000_0000 * 0x1_0000_0000) by (nonlinear_arith)
        requires
            mx == magnitude(x as int),
            -0x1_0000_0000 <= x <= 0x1_0000_0000,
    ;
    assert(my * my == y * y && my * my <= 0x1_0000_0000 * 0x1_0000_0000) by (nonlinear_arith)
        requires
            my == magnitude(y as int),
            -0x1_0000_0000 <= y <= 0x1_0000_0000,
    ;
    mx * mx + my * my
}

/// Depth by which a disc-like reach exceeds a squared distance, when it does.
fn depth_within(apart: u128, reach: i64) -> (d: Option<i64>)
    requires
        0 <= reach <= 0x2_0000_0000,
    ensures
        d == if apart < reach * reach {
            Some((reach - sqrt_floor(apart as int)) as i64)
        } else {
            None
        },
{
    let wide: u128 = reach as u128;
    assert(wide * wide <= 0x2_0000_0000 * 0x2_0000_0000) by (nonlinear_arith)
        requires
            0 <= wide <= 0x2_0000_0000,
    ;
    if apart < wide * wide {
        let root: u64 = isqrt(apart);
        proof {
            lemma_sqrt_floor_below(apart as int, reach as int);
        }
        Some(reach - root as i64)
    } else {
        None
    }
}

fn disc_disc_contact(a: Point, ra: u32, b: Point, rb: u32) -> (c: Option<Collision>)
    ensures
        c == disc_disc(a, ra as int, b, rb as int),
{
    let dx: i64 = b.x as i64 - a.x as i64;
    let dy: i64 = b.y as i64 - a.y as i64;
    let apart: u128 = square_sum(dx, dy);
    match depth_within(apart, ra as i64 + rb as i64) {
        Some(depth) => Some(Collision { normal_x: dx, normal_y: dy, depth }),
        None => None,
    }
}

fn box_box_contact(a: Point, wa: i64, ha: i64, b: Point, wb: i64, hb: i64) -> (c: Option<
    Collision,
>)
    requires
        0 <= wa <= u32::MAX,
        0 <= ha <= u32::MAX,
        0 <= wb <= u32::MAX,
        0 <= hb <= u32::MAX,
    ensures
        c == box_box(a, wa as int, ha as int, b, wb as int, hb as int),
{
    let dx: i64 = b.x as i64 - a.x as i64;
    let dy: i64 = b.y as i64 - a.y as i64;
    let over_x: i64 = wa + wb - magnitude_of(dx);
    let over_y: i64 = ha + hb - magnitude_of(dy);
    if over_x > 0 && over_y > 0 {
        if over_x < over_y {
            Some(Collision { normal_x: side_of(dx), normal_y: 0, depth: over_x })
        } else {
            Some(Collision { normal_x: 0, normal_y: side_of(dy), depth: over_y })
        }
    } else {
        None
    }
}

fn disc_box_contact(c: Point, r: u32, b: Point, w: u32, h: u32) -> (hit: Option<Collision>)
    ensures
        hit == disc_box(c, r as int, b, w as int, h as int),
{
    let out_x: i64 = excess_of(c.x as i64 - b.x as i64, w as i64);
    let out_y: i64 = excess_of(c.y as i64 - b.y as i64, h as i64);
    if out_x == 0 && out_y == 0 {
        box_box_contact(c, r as i64, r as i64, b, w as i64, h as i64)
    } else {
        let apart: u128 = square_sum(out_x, out_y);
        match depth_within(apart, r as i64) {
            Some(depth) => Some(Collision { normal_x: -out_x, normal_y: -out_y, depth }),
            None => None,
        }
    }
}

/// Tests shape `shape_a` at `pos_a` against shape `shape_b` at `pos_b`, and
/// describes the contact if they overlap.
pub fn shape_collision(pos_a: Point, shape_a: &Shape, pos_b: Point, shape_b: &Shape) -> (c: Option<
    Collision,
>)
    ensures
        c == contact(pos_a, *shape_a, pos_b, *shape_b),
{
    match (*shape_a, *shape_b) {
        (Shape::Circle(ra), Shape::Circle(rb)) => disc_disc_contact(pos_a, ra, pos_b, rb),
        (Shape::Rectangle(wa, ha), Shape::Rectangle(wb, hb)) => box_box_contact(
            pos_a,
            wa as i64,
            ha as i64,
            pos_b,
            wb as i64,
            hb as i64,
        ),
        (Shape::Circle(r), Shape::Rectangle(w, h)) => disc_box_contact(pos_a, r, pos_b, w, h),
        (Shape::Rectangle(w, h), Shape::Circle(r)) => {
            match disc_box_contact(pos_b, r, pos_a, w, h) {
                Some(c) => Some(
                    Collision { normal_x: -c.normal_x, normal_y: -c.normal_y, depth: c.depth },
                ),
                None => None,
            }
        },
    }
}

} // verus!
