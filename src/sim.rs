use vstd::prelude::*;
use crate::field::{field_sum, PointMass};
use crate::geom::Vec2;
use crate::planet::{advanced, point_masses, trail_after, Planet, MAX_DT, MAX_GRAVITY, TRAIL_CAPACITY};

verus! {

/// Every body of the list is well formed.
pub open spec fn all_planets_wf(s: Seq<Planet>) -> bool {
    forall|i: int| 0 <= i < s.len() ==> (#[trigger] s[i]).wf()
}

/// One step of every body against the same snapshot of all of them.
pub open spec fn step_all(s: Seq<PointMass>, gravity: int, dt: int) -> Seq<PointMass> {
    s.map_values(|p: PointMass| advanced(p, s, gravity, dt))
}

/// The bodies after `n` steps.
pub open spec fn evolve(s: Seq<PointMass>, n: nat, gravity: int, dt: int) -> Seq<PointMass>
    decreases n,
{
    if n == 0 {
        s
    } else {
        step_all(evolve(s, (n - 1) as nat, gravity, dt), gravity, dt)
    }
}

/// A trail after being offered each of `positions` in turn.
pub open spec fn trail_after_all(trail: Seq<Vec2>, positions: Seq<Vec2>, min_step: int) -> Seq<Vec2>
    decreases positions.len(),
{
    if positions.len() == 0 {
        trail
    } else {
        trail_after(trail_after_all(trail, positions.drop_last(), min_step), positions.last(), min_step)
    }
}

/// A copy of every body, in order.
pub fn snapshot_of(planets: &Vec<Planet>) -> (r: Vec<Planet>)
    requires
        all_planets_wf(planets@),
    ensures
        r@.len() == planets@.len(),
        point_masses(r@) == point_masses(planets@),
        all_planets_wf(r@),
{
    let mut r: Vec<Planet> = Vec::new();
    let mut i: usize = 0;
    while i < planets.len()
        invariant
            all_planets_wf(planets@),
            0 <= i <= planets@.len(),
            r@.len() == i,
            forall|k: int| 0 <= k < i ==> (#[trigger] r@[k]).point_mass() == planets@[k].point_mass(),
            all_planets_wf(r@),
        decreases planets@.len() - i,
    {
        let p = planets[i].duplicate();
        assert(planets@[i as int].wf());
        r.push(p);
        i = i + 1;
    }
    assert(point_masses(r@) =~= point_masses(planets@));
    r
}

/// Advances every body by one step: each body's trail is offered its current
/// position, then each body moves by its velocity and gains the pull of every
/// other body, all pulls computed against a snapshot taken before the step.
pub fn tick(planets: &mut Vec<Planet>, min_trail_update: u64, gravity: u64, dt: u64)
    requires
        all_planets_wf(old(planets)@),
        gravity <= MAX_GRAVITY,
        dt <= MAX_DT,
    ensures
        final(planets)@.len() == old(planets)@.len(),
        all_planets_wf(final(planets)@),
        point_masses(final(planets)@) == step_all(point_masses(old(planets)@), gravity as int, dt as int),
        forall|i: int|
            0 <= i < old(planets)@.len() ==> {
                &&& (#[trigger] final(planets)@[i]).trail@ == trail_after(
                    old(planets)@[i].trail@,
                    old(planets)@[i].pos,
                    min_trail_update as int,
                )
                &&& final(planets)@[i].size == old(planets)@[i].size
                &&& final(planets)@[i].color == old(planets)@[i].color
            },
{
    let snapshot = snapshot_of(planets);
    let ghost start = planets@;
    let mut i: usize = 0;
    while i < planets.len()
        invariant
            planets@.len() == start.len(),
            point_masses(snapshot@) == point_masses(start),
            all_planets_wf(snapshot@),
            gravity <= MAX_GRAVITY,
            dt <= MAX_DT,
            0 <= i <= start.len(),
            all_planets_wf(planets@),
            forall|k: int| i <= k < start.len() ==> #[trigger] planets@[k] == start[k],
            forall|k: int|
                0 <= k < i ==> {
                    &&& (#[trigger] planets@[k]).point_mass() == advanced(
                        start[k].point_mass(),
                        point_masses(start),
                        gravity as int,
                        dt as int,
                    )
                    &&& planets@[k].trail@ == trail_after(start[k].trail@, start[k].pos, min_trail_update as int)
                    &&& planets@[k].size == start[k].size
                    &&& planets@[k].color == start[k].color
                },
        decreases start.len() - i,
    {
        proof {
            assert forall|k: int| 0 <= k < snapshot@.len() implies (#[trigger] snapshot@[k]).point_mass().wf() by {
                assert(snapshot@[k].wf());
            }
            assert(planets@[i as int].wf());
        }
        planets[i].update(&snapshot, min_trail_update, gravity, dt);
        i = i + 1;
    }
    assert(point_masses(planets@) =~= step_all(point_masses(start), gravity as int, dt as int));
}

/// The positions of every body of `planets` and of `candidate`, after it, at
/// the start of each of `steps` successive steps.
pub fn preview(
    planets: &Vec<Planet>,
    candidate: Planet,
    steps: usize,
    min_trail_update: u64,
    gravity: u64,
    dt: u64,
) -> (r: Vec<Vec<Vec2>>)
    requires
        all_planets_wf(planets@),
        candidate.wf(),
        gravity <= MAX_GRAVITY,
        dt <= MAX_DT,
    ensures
        r@.len() == steps,
        forall|s: int|
            0 <= s < steps ==> (#[trigger] r@[s])@.len() == planets@.len() + 1 && forall|i: int|
                0 <= i <= planets@.len() ==> r@[s]@[i] == evolve(
                    point_masses(planets@).push(candidate.point_mass()),
                    s as nat,
                    gravity as int,
                    dt as int,
                )[i].pos,
{
    let mut world = snapshot_of(planets);
    world.push(candidate);
    let ghost start = point_masses(planets@).push(candidate.point_mass());
    assert(point_masses(world@) =~= start);
    let mut r: Vec<Vec<Vec2>> = Vec::new();
    let mut s: usize = 0;
    while s < steps
        invariant
            all_planets_wf(world@),
            gravity <= MAX_GRAVITY,
            dt <= MAX_DT,
            0 <= s <= steps,
            r@.len() == s,
            world@.len() == start.len(),
            start.len() == planets@.len() + 1,
            point_masses(world@) == evolve(start, s as nat, gravity as int, dt as int),
            forall|t: int|
                0 <= t < s ==> (#[trigger] r@[t])@.len() == start.len() && forall|i: int|
                    0 <= i < start.len() ==> r@[t]@[i] == evolve(start, t as nat, gravity as int, dt as int)[i].pos,
        decreases steps - s,
    {
        let mut row: Vec<Vec2> = Vec::new();
        let mut i: usize = 0;
        while i < world.len()
            invariant
                0 <= i <= world@.len(),
                row@.len() == i,
                forall|k: int| 0 <= k < i ==> #[trigger] row@[k] == world@[k].pos,
            decreases world@.len() - i,
        {
            row.push(world[i].pos);
            i = i + 1;
        }
        proof {
            assert forall|k: int| 0 <= k < start.len() implies row@[k] == evolve(
                start,
                s as nat,
                gravity as int,
                dt as int,
            )[k].pos by {
                assert(point_masses(world@)[k] == world@[k].point_mass());
            }
        }
        r.push(row);
        tick(&mut world, min_trail_update, gravity, dt);
        s = s + 1;
    }
    r
}

/// A trail offered any number of positions, one per step, keeps at most
/// `TRAIL_CAPACITY` samples.
pub proof fn lemma_trail_bounded(trail: Seq<Vec2>, positions: Seq<Vec2>, min_step: int)
    requires
        trail.len() <= TRAIL_CAPACITY,
    ensures
        trail_after_all(trail, positions, min_step).len() <= TRAIL_CAPACITY,
    decreases positions.len(),
{
    if positions.len() > 0 {
        lemma_trail_bounded(trail, positions.drop_last(), min_step);
    }
}

/// A body alone feels no pull: its own mass is left out by its id, so a step
/// leaves its velocity as it was.
pub proof fn lemma_single_body_feels_nothing(p: PointMass, gravity: int, dt: int)
    requires
        p.wf(),
    ensures
        field_sum(seq![p], p.pos.add_clamped(p.vel), Some(p.id), dt * gravity * gravity) == (0int, 0int),
        step_all(seq![p], gravity, dt)[0].vel == p.vel,
        step_all(seq![p], gravity, dt)[0].pos == p.pos.add_clamped(p.vel),
{
    let s = seq![p];
    assert(s.drop_last() =~= Seq::<PointMass>::empty());
    assert(field_sum(s.drop_last(), p.pos.add_clamped(p.vel), Some(p.id), dt * gravity * gravity) == (0int, 0int));
}

} // verus!
