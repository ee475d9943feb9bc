use vstd::prelude::*;
use crate::field::{add_pull, field_sum, PointMass, MAX_FACTOR, MAX_MASS};
use crate::geom::{add_clamped, clamp, clamp_spec, dist_sq, distance_sq, Vec2, COORD_LIMIT};

verus! {

/// Largest gravitational constant a step accepts.
pub const MAX_GRAVITY: u64 = 16777216;

/// Largest time step a step accepts.
pub const MAX_DT: u64 = 262144;

/// How many past positions a trail keeps.
pub const TRAIL_CAPACITY: usize = 100;

/// A display colour, red, green, blue and alpha.
#[derive(Clone, Copy, Debug, PartialEq, Eq, Structural)]
pub struct Color {
    pub r: u8,
    pub g: u8,
    pub b: u8,
    pub a: u8,
}

/// A simulated body with its display attributes.
#[derive(Clone, Debug)]
pub struct Planet {
    pub pos: Vec2,
    pub vel: Vec2,
    pub mass: u64,
    pub size: u64,
    pub id: i32,
    pub trail: Vec<Vec2>,
    pub color: Color,
}

/// The point masses of a list of bodies, in order.
pub open spec fn point_masses(s: Seq<Planet>) -> Seq<PointMass> {
    s.map_values(|p: Planet| p.point_mass())
}

/// The factor of the per-step pull: `dt * G^2`. A body of mass `m` then pulls
/// with `dt * G^2 * m`; the pulled body's own mass plays no part.
pub open spec fn step_factor(gravity: int, dt: int) -> int {
    dt * gravity * gravity
}

/// One step of a point mass against a snapshot of all bodies: the position
/// moves by the old velocity, then the velocity gains the pull of every other
/// body of the snapshot, felt at the new position.
pub open spec fn advanced(p: PointMass, snapshot: Seq<PointMass>, gravity: int, dt: int) -> PointMass {
    let pos = p.pos.add_clamped(p.vel);
    let a = field_sum(snapshot, pos, Some(p.id), step_factor(gravity, dt));
    PointMass {
        pos,
        vel: Vec2 { x: clamp_spec(p.vel.x + a.0) as i64, y: clamp_spec(p.vel.y + a.1) as i64 },
        mass: p.mass,
        id: p.id,
    }
}

/// The trail once `pos` has been offered to it: appended when the trail is
/// empty or `pos` lies farther than `min_step` from the last sample, and the
/// oldest sample dropped when that makes it longer than `TRAIL_CAPACITY`.
pub open spec fn trail_after(trail: Seq<Vec2>, pos: Vec2, min_step: int) -> Seq<Vec2> {
    if trail.len() == 0 || dist_sq(trail.last(), pos) > min_step * min_step {
        let t = trail.push(pos);
        if t.len() > TRAIL_CAPACITY {
            t.drop_first()
        } else {
            t
        }
    } else {
        trail
    }
}

/// `dt * G^2` for in-range parameters.
pub fn step_factor_of(gravity: u64, dt: u64) -> (r: u128)
    requires
        gravity <= MAX_GRAVITY,
        dt <= MAX_DT,
    ensures
        r == step_factor(gravity as int, dt as int),
        r <= MAX_FACTOR,
{
    let dt = dt as u128;
    let g = gravity as u128;
    assert(dt * g <= MAX_DT * MAX_GRAVITY) by (nonlinear_arith)
        requires
            dt <= MAX_DT,
            g <= MAX_GRAVITY,
    ;
    assert(dt * g * g <= MAX_DT * MAX_GRAVITY * MAX_GRAVITY) by (nonlinear_arith)
        requires
            dt * g <= MAX_DT * MAX_GRAVITY,
            g <= MAX_GRAVITY,
    ;
    dt * g * g
}

/// The summed pull at `at` of every body of `bodies` whose id is not `skip`,
/// each pulling with `mass * factor`, unsaturated.
pub fn field_of(bodies: &Vec<Planet>, at: Vec2, skip: Option<i32>, factor: u128) -> (r: (i128, i128))
    requires
        forall|i: int| 0 <= i < bodies@.len() ==> (#[trigger] bodies@[i]).point_mass().wf(),
        at.in_range(),
        factor <= MAX_FACTOR,
    ensures
        r.0 == field_sum(point_masses(bodies@), at, skip, factor as int).0,
        r.1 == field_sum(point_masses(bodies@), at, skip, factor as int).1,
        -(bodies@.len() as int) * COORD_LIMIT <= r.0 <= (bodies@.len() as int) * COORD_LIMIT,
        -(bodies@.len() as int) * COORD_LIMIT <= r.1 <= (bodies@.len() as int) * COORD_LIMIT,
{
    let mut ax: i128 = 0;
    let mut ay: i128 = 0;
    let mut i: usize = 0;
    while i < bodies.len()
        invariant
            forall|k: int| 0 <= k < bodies@.len() ==> (#[trigger] bodies@[k]).point_mass().wf(),
            at.in_range(),
            factor <= MAX_FACTOR,
            0 <= i <= bodies@.len(),
            ax == field_sum(point_masses(bodies@.take(i as int)), at, skip, factor as int).0,
            ay == field_sum(point_masses(bodies@.take(i as int)), at, skip, factor as int).1,
            -(i as int) * COORD_LIMIT <= ax <= (i as int) * COORD_LIMIT,
            -(i as int) * COORD_LIMIT <= ay <= (i as int) * COORD_LIMIT,
        decreases bodies@.len() - i,
    {
        let d = &bodies[i];
        proof {
            assert(point_masses(bodies@.take(i + 1)).drop_last() =~= point_masses(bodies@.take(i as int)));
            assert(point_masses(bodies@.take(i + 1)).last() == d.point_mass());
        }
        let same = match skip {
            Some(s) => s == d.id,
            None => false,
        };
        if !same {
            let pm = PointMass { pos: d.pos, vel: d.vel, mass: d.mass, id: d.id };
            let r = add_pull(ax, ay, at, pm, factor, Ghost(i as int));
            ax = r.0;
            ay = r.1;
        }
        i = i + 1;
    }
    proof {
        assert(bodies@.take(i as int) =~= bodies@);
    }
    (ax, ay)
}

impl Planet {
    /// What the physics reads of this body.
    pub open spec fn point_mass(&self) -> PointMass {
        PointMass { pos: self.pos, vel: self.vel, mass: self.mass, id: self.id }
    }

    /// Position, velocity and mass in range, and a trail of at most
    /// `TRAIL_CAPACITY` in-range samples.
    pub open spec fn wf(&self) -> bool {
        &&& self.point_mass().wf()
        &&& self.trail@.len() <= TRAIL_CAPACITY
        &&& forall|i: int| 0 <= i < self.trail@.len() ==> (#[trigger] self.trail@[i]).in_range()
    }

    /// A body with the given state and an empty trail.
    pub fn new(pos: Vec2, vel: Vec2, mass: u64, size: u64, id: i32, color: Color) -> (r: Planet)
        ensures
            r.pos == pos,
            r.vel == vel,
            r.mass == mass,
            r.size == size,
            r.id == id,
            r.color == color,
            r.trail@.len() == 0,
    {
        Planet { pos, vel, mass, size, id, trail: Vec::new(), color }
    }

    /// Whether this body is well formed, that is, whether a step accepts it.
    pub fn is_valid(&self) -> (r: bool)
        ensures
            r == self.wf(),
    {
        if !self.pos.is_in_range() || !self.vel.is_in_range() || self.mass == 0 || self.mass > MAX_MASS
            || self.trail.len() > TRAIL_CAPACITY {
            return false;
        }
        let mut i: usize = 0;
        while i < self.trail.len()
            invariant
                self.point_mass().wf(),
                self.trail@.len() <= TRAIL_CAPACITY,
                0 <= i <= self.trail@.len(),
                forall|k: int| 0 <= k < i ==> (#[trigger] self.trail@[k]).in_range(),
            decreases self.trail@.len() - i,
        {
            if !self.trail[i].is_in_range() {
                return false;
            }
            i = i + 1;
        }
        true
    }

    /// A copy of this body, trail included.
    pub fn duplicate(&self) -> (r: Planet)
        ensures
            r.point_mass() == self.point_mass(),
            r.size == self.size,
            r.color == self.color,
            r.trail@ == self.trail@,
    {
        let mut trail: Vec<Vec2> = Vec::new();
        let mut i: usize = 0;
        while i < self.trail.len()
            invariant
                0 <= i <= self.trail@.len(),
                trail@ == self.trail@.take(i as int),
            decreases self.trail@.len() - i,
        {
            trail.push(self.trail[i]);
            i = i + 1;
            assert(trail@ =~= self.trail@.take(i as int));
        }
        assert(trail@ =~= self.trail@);
        Planet {
            pos: self.pos,
            vel: self.vel,
            mass: self.mass,
            size: self.size,
            id: self.id,
            trail,
            color: self.color,
        }
    }

    /// Offers the current position to the trail.
    fn record_trail(&mut self, min_trail_update: u64)
        requires
            old(self).wf(),
        ensures
            final(self).trail@ == trail_after(old(self).trail@, old(self).pos, min_trail_update as int),
            final(self).wf(),
            final(self).point_mass() == old(self).point_mass(),
            final(self).size == old(self).size,
            final(self).color == old(self).color,
    {
        let append = if self.trail.len() == 0 {
            true
        } else {
            let last = self.trail[self.trail.len() - 1];
            let m = min_trail_update as u128;
            assert(m * m <= 0xffff_ffff_ffff_ffffu128 * 0xffff_ffff_ffff_ffffu128) by (nonlinear_arith)
                requires
                    m <= 0xffff_ffff_ffff_ffffu128,
            ;
            distance_sq(last, self.pos) > m * m
        };
        if append {
            self.trail.push(self.pos);
            if self.trail.len() > TRAIL_CAPACITY {
                self.trail.remove(0);
            }
        }
    }

    /// Advances this body by one step against `snapshot`, a copy of every body
    /// taken before the step: the trail is offered the current position, the
    /// position moves by the current velocity, and the velocity gains the pull
    /// of each body of the snapshot whose id differs from this one, felt at
    /// the new position.
    pub fn update(&mut self, snapshot: &Vec<Self>, min_trail_update: u64, gravity: u64, dt: u64)
        requires
            old(self).wf(),
            forall|i: int| 0 <= i < snapshot@.len() ==> (#[trigger] snapshot@[i]).point_mass().wf(),
            gravity <= MAX_GRAVITY,
            dt <= MAX_DT,
        ensures
            final(self).wf(),
            final(self).point_mass() == advanced(
                old(self).point_mass(),
                point_masses(snapshot@),
                gravity as int,
                dt as int,
            ),
            final(self).trail@ == trail_after(old(self).trail@, old(self).pos, min_trail_update as int),
            final(self).size == old(self).size,
            final(self).color == old(self).color,
    {
        self.record_trail(min_trail_update);
        self.pos = add_clamped(self.pos, self.vel);
        let factor = step_factor_of(gravity, dt);
        let a = field_of(snapshot, self.pos, Some(self.id), factor);
        proof {
            broadcast use vstd::std_specs::vec::axiom_spec_len;

            assert(snapshot@.len() == snapshot.len());
        }
        self.vel = Vec2 {
            x: clamp(self.vel.x as i128 + a.0),
            y: clamp(self.vel.y as i128 + a.1),
        };
    }
}

} // verus!
