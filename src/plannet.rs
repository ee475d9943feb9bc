use vstd::prelude::*;
use crate::geom::Vec2;
use crate::field::PointMass;

verus! {

/// A body as the spatial partition holds it.
#[derive(Clone, Debug)]
pub struct Plannet {
    pub pos: Vec2,
    pub vel: Vec2,
    pub mass: u64,
    pub size: u64,
    pub id: i32,
    pub trail: Vec<Vec2>,
}

impl Plannet {
    /// What the force computations read of this body.
    pub open spec fn point_mass(&self) -> PointMass {
        PointMass { pos: self.pos, vel: self.vel, mass: self.mass, id: self.id }
    }

    /// A body with the given state and an empty trail.
    pub fn new(pos: Vec2, vel: Vec2, mass: u64, size: u64, id: i32) -> (r: Plannet)
        ensures
            r.pos == pos,
            r.vel == vel,
            r.mass == mass,
            r.size == size,
            r.id == id,
            r.trail@.len() == 0,
    {
        Plannet { pos, vel, mass, size, id, trail: Vec::new() }
    }
}

} // verus!
