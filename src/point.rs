use vstd::prelude::*;

verus! {

/// A sample: a world position and its attribute values.
#[derive(Debug, Clone)]
pub struct Point {
    pub x: i32,
    pub y: i32,
    /// Attribute values; the first one is the value that interpolation uses.
    pub values: Vec<i64>,
}

/// Squared Euclidean distance between (`ax`, `ay`) and (`bx`, `by`).
pub open spec fn dist_sq(ax: int, ay: int, bx: int, by: int) -> int {
    (ax - bx) * (ax - bx) + (ay - by) * (ay - by)
}

/// Squared distance from point `p` to (`x`, `y`).
pub open spec fn point_dist_sq(p: Point, x: int, y: int) -> int {
    dist_sq(p.x as int, p.y as int, x, y)
}

/// Every point carries at least one attribute value.
pub open spec fn all_valued(points: Seq<Point>) -> bool {
    forall|i: int| 0 <= i < points.len() ==> #[trigger] points[i].values@.len() > 0
}

impl Point {
    /// Creates a point at (`x`, `y`) with the given attribute values.
    pub fn new(x: i32, y: i32, values: Vec<i64>) -> (r: Point)
        ensures
            r.x == x,
            r.y == y,
            r.values@ == values@,
    {
        Point { x, y, values }
    }

    /// The value that interpolation reads: the first attribute.
    pub open spec fn label(&self) -> i64 {
        self.values@[0]
    }

    /// `(x, y)`.
    pub fn to_tuple(&self) -> (r: (i32, i32))
        ensures
            r == (self.x, self.y),
    {
        (self.x, self.y)
    }

    /// `[x, y]`.
    pub fn to_array(&self) -> (r: [i32; 2])
        ensures
            r@ == seq![self.x, self.y],
    {
        let r = [self.x, self.y];
        assert(r@ =~= seq![self.x, self.y]);
        r
    }
}

/// Squared Euclidean distance between two positions, computed exactly.
pub fn squared_distance(ax: i32, ay: i32, bx: i32, by: i32) -> (r: u128)
    ensures
        r == dist_sq(ax as int, ay as int, bx as int, by as int),
{
    let dx: i64 = ax as i64 - bx as i64;
    let dy: i64 = ay as i64 - by as i64;
    let ux: u128 = if dx < 0 { (-dx) as u128 } else { dx as u128 };
    let uy: u128 = if dy < 0 { (-dy) as u128 } else { dy as u128 };
    proof {
        assert(ux * ux == dx * dx) by (nonlinear_arith)
            requires
                ux == dx || ux == -dx,
        ;
        assert(uy * uy == dy * dy) by (nonlinear_arith)
            requires
                uy == dy || uy == -dy,
        ;
        assert(ux * ux <= 0x1_0000_0000 * 0x1_0000_0000) by (nonlinear_arith)
            requires
                ux <= 0x1_0000_0000,
        ;
        assert(uy * uy <= 0x1_0000_0000 * 0x1_0000_0000) by (nonlinear_arith)
            requires
                uy <= 0x1_0000_0000,
        ;
    }
    ux * ux + uy * uy
}

} // verus!
