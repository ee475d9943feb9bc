use vstd::prelude::*;
use crate::force::{pull, pull_spec, MAX_STRENGTH};
use crate::geom::{Vec2, COORD_LIMIT, ONE};

verus! {

/// Largest mass a body may have.
pub const MAX_MASS: u64 = 4294967296;

/// Largest factor that [`strength_of`] accepts.
pub const MAX_FACTOR: u128 = 295147905179352825856;

/// The factor of a plain inverse-square field sample: a unit mass at unit
/// distance pulls with one unit.
pub const FIELD_FACTOR: u128 = 281474976710656;

/// The part of a body that the physics reads and writes.
#[derive(Clone, Copy, Debug, PartialEq, Eq, Structural)]
pub struct PointMass {
    pub pos: Vec2,
    pub vel: Vec2,
    pub mass: u64,
    pub id: i32,
}

impl PointMass {
    /// Position and velocity in range, mass positive and at most `MAX_MASS`.
    pub open spec fn wf(self) -> bool {
        &&& self.pos.in_range()
        &&& self.vel.in_range()
        &&& 0 < self.mass <= MAX_MASS
    }
}

/// The pull strength of a body of mass `mass`: `mass * factor`, in
/// fixed-point units.
pub open spec fn strength(mass: int, factor: int) -> nat {
    (mass * factor / (ONE as int)) as nat
}

/// The summed pull at `at` of every body of `bodies` whose id is not `skip`,
/// each body pulling with `strength(mass, factor)`.
pub open spec fn field_sum(bodies: Seq<PointMass>, at: Vec2, skip: Option<i32>, factor: int) -> (int, int)
    decreases bodies.len(),
{
    if bodies.len() == 0 {
        (0, 0)
    } else {
        let rest = field_sum(bodies.drop_last(), at, skip, factor);
        let d = bodies.last();
        if skip == Some(d.id) {
            rest
        } else {
            let c = pull_spec(at, d.pos, strength(d.mass as int, factor));
            (rest.0 + c.0, rest.1 + c.1)
        }
    }
}

/// The field of two lists of bodies together is the sum of their fields.
pub proof fn lemma_field_sum_append(a: Seq<PointMass>, b: Seq<PointMass>, at: Vec2, skip: Option<i32>, factor: int)
    ensures
        field_sum(a + b, at, skip, factor).0 == field_sum(a, at, skip, factor).0 + field_sum(b, at, skip, factor).0,
        field_sum(a + b, at, skip, factor).1 == field_sum(a, at, skip, factor).1 + field_sum(b, at, skip, factor).1,
    decreases b.len(),
{
    if b.len() == 0 {
        assert(a + b =~= a);
    } else {
        lemma_field_sum_append(a, b.drop_last(), at, skip, factor);
        assert((a + b).drop_last() =~= a + b.drop_last());
        assert((a + b).last() == b.last());
    }
}

/// `mass * factor` in fixed-point units.
pub fn strength_of(mass: u128, factor: u128) -> (r: u128)
    requires
        mass * factor <= MAX_MASS * MAX_FACTOR,
    ensures
        r == strength(mass as int, factor as int),
        r <= MAX_STRENGTH,
{
    proof {
        vstd::arithmetic::div_mod::lemma_div_is_ordered(
            (mass * factor) as int,
            MAX_MASS * MAX_FACTOR,
            ONE as int,
        );
        assert(MAX_MASS * MAX_FACTOR / (ONE as int) == MAX_STRENGTH);
    }
    mass * factor / (ONE as u128)
}

/// Adds one body's pull at `at` to the running sum `(ax, ay)`.
pub(crate) fn add_pull(ax: i128, ay: i128, at: Vec2, d: PointMass, factor: u128, n: Ghost<int>) -> (r: (i128, i128))
    requires
        d.wf(),
        at.in_range(),
        factor <= MAX_FACTOR,
        0 <= n@ < 0x1_0000_0000_0000_0000,
        -n@ * COORD_LIMIT <= ax <= n@ * COORD_LIMIT,
        -n@ * COORD_LIMIT <= ay <= n@ * COORD_LIMIT,
    ensures
        r.0 == ax + pull_spec(at, d.pos, strength(d.mass as int, factor as int)).0,
        r.1 == ay + pull_spec(at, d.pos, strength(d.mass as int, factor as int)).1,
        -(n@ + 1) * COORD_LIMIT <= r.0 <= (n@ + 1) * COORD_LIMIT,
        -(n@ + 1) * COORD_LIMIT <= r.1 <= (n@ + 1) * COORD_LIMIT,
{
    assert(d.mass * factor <= MAX_MASS * MAX_FACTOR) by (nonlinear_arith)
        requires
            d.mass <= MAX_MASS,
            factor <= MAX_FACTOR,
    ;
    let k = strength_of(d.mass as u128, factor);
    let c = pull(at, d.pos, k);
    (ax + c.x as i128, ay + c.y as i128)
}

} // verus!
