//! Integer plane geometry: points, squared distances and range tests.

use vstd::prelude::*;

verus! {

/// A point of the plane, or the offset between two points, in world units.
#[derive(Clone, Copy, Debug, PartialEq, Eq, Hash, Structural)]
pub struct Position {
    pub x: i32,
    pub y: i32,
}

/// The square of the Euclidean distance between `a` and `b`.
pub open spec fn dist2(a: Position, b: Position) -> int {
    (a.x - b.x) * (a.x - b.x) + (a.y - b.y) * (a.y - b.y)
}

/// `a` and `b` are at most `d` apart.
pub open spec fn within(a: Position, b: Position, d: int) -> bool {
    0 <= d && dist2(a, b) <= d * d
}

/// The largest squared distance two points can have.
pub const MAX_DIST2: u128 = 0x2_0000_0000_0000_0000;

/// The square of a number between `-bound` and `bound` is at most the square
/// of `bound`.
pub proof fn lemma_square_bound(v: int, bound: int)
    by (nonlinear_arith)
    requires
        -bound <= v <= bound,
    ensures
        0 <= v * v <= bound * bound,
{
}

/// Among numbers that are not negative, the greater has the greater square.
pub proof fn lemma_square_monotone(a: int, b: int)
    by (nonlinear_arith)
    requires
        0 <= a <= b,
    ensures
        a * a <= b * b,
{
}

/// Squared distances are symmetric, never negative, and zero only between
/// equal points.
pub proof fn lemma_dist2_properties(a: Position, b: Position)
    ensures
        dist2(a, b) == dist2(b, a),
        0 <= dist2(a, b) <= MAX_DIST2,
        dist2(a, b) == 0 <==> a == b,
{
    let dx = a.x - b.x;
    let dy = a.y - b.y;
    lemma_square_bound(dx, 0x1_0000_0000);
    lemma_square_bound(dy, 0x1_0000_0000);
    assert(dx * dx == (b.x - a.x) * (b.x - a.x)) by (nonlinear_arith)
        requires
            dx == a.x - b.x,
    ;
    assert(dy * dy == (b.y - a.y) * (b.y - a.y)) by (nonlinear_arith)
        requires
            dy == a.y - b.y,
    ;
    assert(dx * dx == 0 <==> dx == 0) by (nonlinear_arith);
    assert(dy * dy == 0 <==> dy == 0) by (nonlinear_arith);
}

/// `v` brought into the range of an `i32`.
pub open spec fn saturated(v: int) -> int {
    if v < i32::MIN {
        i32::MIN as int
    } else if v > i32::MAX {
        i32::MAX as int
    } else {
        v
    }
}

/// Brings a coordinate into the range of an `i32`.
pub fn saturate(v: i64) -> (r: i32)
    ensures
        r == saturated(v as int),
{
    if v < i32::MIN as i64 {
        i32::MIN
    } else if v > i32::MAX as i64 {
        i32::MAX
    } else {
        v as i32
    }
}

impl Position {
    /// The point `(x, y)`.
    pub fn new(x: i32, y: i32) -> (p: Position)
        ensures
            p.x == x,
            p.y == y,
    {
        Position { x, y }
    }

    /// The squared distance to `other`, computed without overflow.
    pub fn distance_squared(&self, other: &Position) -> (r: u128)
        ensures
            r == dist2(*self, *other),
            r <= MAX_DIST2,
    {
        let dx: i128 = self.x as i128 - other.x as i128;
        let dy: i128 = self.y as i128 - other.y as i128;
        proof {
            lemma_square_bound(dx as int, 0x1_0000_0000);
            lemma_square_bound(dy as int, 0x1_0000_0000);
        }
        (dx * dx + dy * dy) as u128
    }

    /// Whether `other` lies at most `d` world units away.
    pub fn is_within(&self, other: &Position, d: u64) -> (r: bool)
        ensures
            r == within(*self, *other, d as int),
    {
        let d2: u128 = self.distance_squared(other);
        if d >= 0x2_0000_0000 {
            proof {
                lemma_square_monotone(0x2_0000_0000, d as int);
            }
            true
        } else {
            proof {
                lemma_square_bound(d as int, 0x2_0000_0000);
            }
            let wide: u128 = d as u128;
            d2 <= wide * wide
        }
    }
}

} // verus!
