//! Two-dimensional integer coordinates over the full `i128` domain, with
//! checked arithmetic at the edge of representable space.

use vstd::prelude::*;
use vstd::arithmetic::div_mod::{lemma_div_decreases, lemma_div_nonincreasing, lemma_div_pos_is_pos};

verus! {

/// Whether `v` lies within the representable coordinate range.
pub open spec fn representable(v: int) -> bool {
    i128::MIN <= v <= i128::MAX
}

/// Truncating integer division, the way Rust's `/` rounds: toward zero.
/// (Spec-level `/` rounds toward negative infinity for a positive divisor.)
pub open spec fn trunc_div(a: int, b: int) -> int {
    if a == 0 {
        0
    } else if a > 0 && b > 0 {
        a / b
    } else if a < 0 && b < 0 {
        (a * -1) / (b * -1)
    } else if a < 0 {
        ((a * -1) / b) * -1
    } else {
        (a / (b * -1)) * -1
    }
}

/// Truncating division of two representable values stays representable, as
/// long as the one overflowing pair (the smallest value divided by -1) is
/// excluded.
proof fn lemma_trunc_div_in_range(a: int, b: int)
    requires
        i128::MIN <= a <= i128::MAX,
        i128::MIN <= b <= i128::MAX,
        b != 0,
        !(a == i128::MIN && b == -1),
    ensures
        i128::MIN <= trunc_div(a, b) <= i128::MAX,
{
    if a != 0 {
        let n: int = if a > 0 {
            a
        } else {
            a * -1
        };
        let d: int = if b > 0 {
            b
        } else {
            b * -1
        };
        lemma_div_pos_is_pos(n, d);
        lemma_div_nonincreasing(n, d);
        if a == i128::MIN && b < 0 {
            lemma_div_decreases(n, d);
        }
    }
}

/// An immutable square coordinate on an unbounded board, with plain value
/// semantics and no shared identity.
#[derive(Clone, Copy, PartialEq, Eq, Structural, Debug, Hash)]
pub struct Point {
    pub x: i128,
    pub y: i128,
}

impl Point {
    pub fn new(x: i128, y: i128) -> (p: Point)
        ensures
            p == (Point { x, y }),
    {
        Point { x, y }
    }

    /// Component-wise sum that signals failure instead of wrapping when a
    /// component would leave the representable range.
    pub fn checked_add(self, other: Point) -> (r: Option<Point>)
        ensures
            representable(self.x + other.x) && representable(self.y + other.y) ==> r == Some(
                Point { x: (self.x + other.x) as i128, y: (self.y + other.y) as i128 },
            ),
            !(representable(self.x + other.x) && representable(self.y + other.y)) ==> r is None,
    {
        match (self.x.checked_add(other.x), self.y.checked_add(other.y)) {
            (Some(x), Some(y)) => Some(Point { x, y }),
            _ => None,
        }
    }

    /// Component-wise addition; the caller keeps both sums representable.
    pub fn add(self, other: Point) -> (r: Point)
        requires
            representable(self.x + other.x),
            representable(self.y + other.y),
        ensures
            r.x == self.x + other.x,
            r.y == self.y + other.y,
    {
        Point { x: self.x + other.x, y: self.y + other.y }
    }

    /// Component-wise subtraction; the caller keeps both differences representable.
    pub fn sub(self, other: Point) -> (r: Point)
        requires
            representable(self.x - other.x),
            representable(self.y - other.y),
        ensures
            r.x == self.x - other.x,
            r.y == self.y - other.y,
    {
        Point { x: self.x - other.x, y: self.y - other.y }
    }

    /// Scalar multiplication; the caller keeps both products representable.
    pub fn mul(self, scalar: i128) -> (r: Point)
        requires
            representable(self.x * scalar),
            representable(self.y * scalar),
        ensures
            r.x == self.x * scalar,
            r.y == self.y * scalar,
    {
        Point { x: self.x * scalar, y: self.y * scalar }
    }

    /// Scalar division, truncating toward zero as Rust's `/` does. Callers
    /// that normalise a direction to a unit step pre-scale accordingly.
    pub fn div(self, scalar: i128) -> (r: Point)
        requires
            scalar != 0,
            !(self.x == i128::MIN && scalar == -1),
            !(self.y == i128::MIN && scalar == -1),
        ensures
            r.x == trunc_div(self.x as int, scalar as int),
            r.y == trunc_div(self.y as int, scalar as int),
    {
        proof {
            lemma_trunc_div_in_range(self.x as int, scalar as int);
            lemma_trunc_div_in_range(self.y as int, scalar as int);
        }
        let x = match self.x.checked_div(scalar) {
            Some(v) => v,
            None => 0,
        };
        let y = match self.y.checked_div(scalar) {
            Some(v) => v,
            None => 0,
        };
        Point { x, y }
    }
}

} // verus!
