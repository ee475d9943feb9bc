use vstd::prelude::*;

verus! {

/// The fixed-point unit: the integer `ONE` stands for 1.0.
pub const ONE: i64 = 65536;

/// Coordinates, velocities and force samples saturate at plus or minus this
/// bound, the fixed-point counterpart of a value running off to infinity.
pub const COORD_LIMIT: i64 = 1099511627776;

/// A point or a displacement in the plane, in fixed-point units.
#[derive(Clone, Copy, Debug, PartialEq, Eq, Structural)]
pub struct Vec2 {
    pub x: i64,
    pub y: i64,
}

/// `v` saturated into `[-COORD_LIMIT, COORD_LIMIT]`.
pub open spec fn clamp_spec(v: int) -> int {
    if v > COORD_LIMIT {
        COORD_LIMIT as int
    } else if v < -COORD_LIMIT {
        -COORD_LIMIT
    } else {
        v
    }
}

/// Saturates `v` into `[-COORD_LIMIT, COORD_LIMIT]`.
pub fn clamp(v: i128) -> (r: i64)
    ensures
        r == clamp_spec(v as int),
{
    if v > COORD_LIMIT as i128 {
        COORD_LIMIT
    } else if v < -(COORD_LIMIT as i128) {
        -COORD_LIMIT
    } else {
        v as i64
    }
}

impl Vec2 {
    /// Both coordinates lie within `[-COORD_LIMIT, COORD_LIMIT]`.
    pub open spec fn in_range(self) -> bool {
        -COORD_LIMIT <= self.x <= COORD_LIMIT && -COORD_LIMIT <= self.y <= COORD_LIMIT
    }

    /// Whether both coordinates lie within `[-COORD_LIMIT, COORD_LIMIT]`.
    pub fn is_in_range(&self) -> (r: bool)
        ensures
            r == self.in_range(),
    {
        -COORD_LIMIT <= self.x && self.x <= COORD_LIMIT && -COORD_LIMIT <= self.y && self.y <= COORD_LIMIT
    }

    /// Saturating componentwise sum.
    pub open spec fn add_clamped(self, o: Vec2) -> Vec2 {
        Vec2 { x: clamp_spec(self.x + o.x) as i64, y: clamp_spec(self.y + o.y) as i64 }
    }
}

/// Squared length of the displacement from `a` to `b`.
pub open spec fn dist_sq(a: Vec2, b: Vec2) -> nat {
    ((b.x - a.x) * (b.x - a.x) + (b.y - a.y) * (b.y - a.y)) as nat
}

/// Squared distance between two in-range points.
pub fn distance_sq(a: Vec2, b: Vec2) -> (r: u128)
    requires
        a.in_range(),
        b.in_range(),
    ensures
        r == dist_sq(a, b),
        r <= 9671406556917033397649408,
{
    let dx: i128 = b.x as i128 - a.x as i128;
    let dy: i128 = b.y as i128 - a.y as i128;
    assert(dx * dx <= 2199023255552 * 2199023255552) by (nonlinear_arith)
        requires
            -2199023255552 <= dx <= 2199023255552,
    ;
    assert(dy * dy <= 2199023255552 * 2199023255552) by (nonlinear_arith)
        requires
            -2199023255552 <= dy <= 2199023255552,
    ;
    assert(dx * dx >= 0 && dy * dy >= 0) by (nonlinear_arith);
    (dx * dx + dy * dy) as u128
}

/// Saturating componentwise sum of two vectors.
pub fn add_clamped(a: Vec2, b: Vec2) -> (r: Vec2)
    ensures
        r == a.add_clamped(b),
        r.in_range(),
{
    Vec2 { x: clamp(a.x as i128 + b.x as i128), y: clamp(a.y as i128 + b.y as i128) }
}

} // verus!
