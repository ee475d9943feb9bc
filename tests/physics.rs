use planets::{
    clamp, field_of, isqrt, preview, pull, step_factor_of, strength_of, tick, Color, Planet, Vec2, COORD_LIMIT,
    FIELD_FACTOR, ONE, TRAIL_CAPACITY,
};

const WHITE: Color = Color { r: 255, g: 255, b: 255, a: 255 };

fn body(x: i64, y: i64, vx: i64, vy: i64, mass: u64, id: i32) -> Planet {
    Planet::new(Vec2 { x, y }, Vec2 { x: vx, y: vy }, mass, 5 * ONE as u64, id, WHITE)
}

fn same_state(a: &Planet, b: &Planet) -> bool {
    a.pos == b.pos && a.vel == b.vel && a.mass == b.mass && a.id == b.id && a.trail == b.trail
}

#[test]
fn isqrt_rounds_down() {
    assert_eq!(isqrt(0), 0);
    assert_eq!(isqrt(1), 1);
    assert_eq!(isqrt(15), 3);
    assert_eq!(isqrt(16), 4);
    assert_eq!(isqrt(17), 4);
    let big: u128 = (1u128 << 100) - 1;
    assert_eq!(isqrt(big), (1u128 << 50) - 1);
}

#[test]
fn clamp_saturates() {
    assert_eq!(clamp(5), 5);
    assert_eq!(clamp(-5), -5);
    assert_eq!(clamp(i128::MAX), COORD_LIMIT);
    assert_eq!(clamp(i128::MIN), -COORD_LIMIT);
}

#[test]
fn pull_is_inverse_square() {
    // Unit mass at distance 2 along x: field 1/4, i.e. ONE / 4.
    let k = strength_of(ONE as u128, FIELD_FACTOR);
    let p = pull(Vec2 { x: 0, y: 0 }, Vec2 { x: 2 * ONE, y: 0 }, k);
    assert_eq!(p, Vec2 { x: ONE / 4, y: 0 });
    // Pointing the other way.
    let q = pull(Vec2 { x: 0, y: 0 }, Vec2 { x: 0, y: -2 * ONE }, k);
    assert_eq!(q, Vec2 { x: 0, y: -ONE / 4 });
    // A 3-4-5 triangle: components 3/125 and 4/125 of a unit pull.
    let r = pull(Vec2 { x: 0, y: 0 }, Vec2 { x: 3 * ONE, y: 4 * ONE }, k);
    assert_eq!(r, Vec2 { x: 3 * ONE / 125, y: 4 * ONE / 125 });
}

#[test]
fn pull_at_coincident_points_is_zero() {
    let k = strength_of(ONE as u128, FIELD_FACTOR);
    let p = pull(Vec2 { x: 7, y: 7 }, Vec2 { x: 7, y: 7 }, k);
    assert_eq!(p, Vec2 { x: 0, y: 0 });
}

#[test]
fn pull_saturates_near_a_mass() {
    let k = strength_of(1u128 << 32, FIELD_FACTOR);
    let p = pull(Vec2 { x: 0, y: 0 }, Vec2 { x: 1, y: 0 }, k);
    assert_eq!(p, Vec2 { x: COORD_LIMIT, y: 0 });
}

#[test]
fn step_factor_is_dt_times_gravity_squared() {
    assert_eq!(step_factor_of(3, 5), 45);
    assert_eq!(step_factor_of(ONE as u64, ONE as u64), 1u128 << 48);
}

#[test]
fn two_bodies_attract_each_other() {
    let mut planets = vec![body(0, 0, 0, 0, 10 * ONE as u64, 0), body(100 * ONE, 0, 0, 0, 10 * ONE as u64, 1)];
    tick(&mut planets, ONE as u64 / 10, ONE as u64, ONE as u64);
    assert_eq!(planets[0].pos, Vec2 { x: 0, y: 0 });
    assert_eq!(planets[1].pos, Vec2 { x: 100 * ONE, y: 0 });
    // G^2 * 10 / 100^2 = 0.001, in fixed point 65.536, rounded toward zero.
    assert_eq!(planets[0].vel, Vec2 { x: 65, y: 0 });
    assert_eq!(planets[1].vel, Vec2 { x: -65, y: 0 });
    let v = planets[0].vel.x as f64 / ONE as f64;
    assert!((v - 0.001).abs() < 2.0 / ONE as f64);
}

#[test]
fn position_moves_by_the_old_velocity() {
    let mut planets = vec![body(0, 0, ONE, 0, ONE as u64, 0), body(100 * ONE, 0, 0, 0, ONE as u64, 1)];
    tick(&mut planets, 0, ONE as u64, ONE as u64);
    assert_eq!(planets[0].pos, Vec2 { x: ONE, y: 0 });
    // The velocity gained is felt at the new position, 99 units away.
    let expected = pull(Vec2 { x: ONE, y: 0 }, Vec2 { x: 100 * ONE, y: 0 }, strength_of(ONE as u128, 1u128 << 48));
    assert!(expected.x > 0);
    assert_eq!(planets[0].vel, Vec2 { x: ONE + expected.x, y: 0 });
}

#[test]
fn own_mass_does_not_matter() {
    let mut light = vec![body(0, 0, 0, 0, ONE as u64, 0), body(50 * ONE, 0, 0, 0, 4 * ONE as u64, 1)];
    let mut heavy = vec![body(0, 0, 0, 0, 90 * ONE as u64, 0), body(50 * ONE, 0, 0, 0, 4 * ONE as u64, 1)];
    tick(&mut light, 0, 2 * ONE as u64, ONE as u64);
    tick(&mut heavy, 0, 2 * ONE as u64, ONE as u64);
    assert_eq!(light[0].vel, heavy[0].vel);
    assert!(light[0].vel.x > 0);
}

#[test]
fn single_body_feels_no_force() {
    let mut planets = vec![body(3 * ONE, -2 * ONE, 7, -9, 50 * ONE as u64, 4)];
    for _ in 0..10 {
        tick(&mut planets, 0, 100 * ONE as u64, ONE as u64);
    }
    assert_eq!(planets[0].vel, Vec2 { x: 7, y: -9 });
    assert_eq!(planets[0].pos, Vec2 { x: 3 * ONE + 70, y: -2 * ONE - 90 });
    let field = field_of(&planets, Vec2 { x: 0, y: 0 }, Some(4), 1u128 << 48);
    assert_eq!(field, (0, 0));
}

#[test]
fn coincident_distinct_bodies_do_not_pull() {
    let mut planets = vec![body(ONE, ONE, 0, 0, ONE as u64, 0), body(ONE, ONE, 0, 0, ONE as u64, 1)];
    tick(&mut planets, 0, ONE as u64, ONE as u64);
    assert_eq!(planets[0].vel, Vec2 { x: 0, y: 0 });
    assert_eq!(planets[1].vel, Vec2 { x: 0, y: 0 });
}

#[test]
fn trail_never_exceeds_capacity() {
    let mut planets = vec![body(0, 0, ONE, 0, ONE as u64, 0), body(0, 1000 * ONE, -ONE, 0, ONE as u64, 1)];
    for _ in 0..250 {
        tick(&mut planets, ONE as u64 / 10, ONE as u64 / 4, ONE as u64 / 60);
        for p in planets.iter() {
            assert!(p.trail.len() <= TRAIL_CAPACITY);
        }
    }
    assert_eq!(planets[0].trail.len(), TRAIL_CAPACITY);
    // Most recent sample last: the position before the last step.
    let last = planets[0].trail[TRAIL_CAPACITY - 1];
    assert!(last.x < planets[0].pos.x);
}

#[test]
fn trail_skips_samples_closer_than_the_threshold() {
    let mut planets = vec![body(0, 0, 1, 0, ONE as u64, 0)];
    for _ in 0..5 {
        tick(&mut planets, ONE as u64, 0, ONE as u64);
    }
    // Moving one fixed-point step per tick never gets a whole unit from the
    // first sample, so only that one is kept.
    assert_eq!(planets[0].trail, vec![Vec2 { x: 0, y: 0 }]);
}

#[test]
fn tick_is_deterministic() {
    let make = || {
        vec![
            body(0, 0, 100, -30, 10 * ONE as u64, 0),
            body(40 * ONE, 3 * ONE, -5, 20, 3 * ONE as u64, 1),
            body(-25 * ONE, 60 * ONE, 0, 0, 70 * ONE as u64, 2),
        ]
    };
    let mut a = make();
    let mut b = make();
    tick(&mut a, ONE as u64 / 10, 20 * ONE as u64, ONE as u64 / 60);
    tick(&mut b, ONE as u64 / 10, 20 * ONE as u64, ONE as u64 / 60);
    assert_eq!(a.len(), b.len());
    for (p, q) in a.iter().zip(b.iter()) {
        assert!(same_state(p, q));
    }
}

#[test]
fn preview_follows_the_same_steps() {
    let planets = vec![body(0, 0, 0, 0, 10 * ONE as u64, 0), body(100 * ONE, 0, 0, ONE / 2, 10 * ONE as u64, 1)];
    let candidate = body(0, 50 * ONE, ONE, 0, 5 * ONE as u64, 2);
    let rows = preview(&planets, candidate, 4, 0, ONE as u64, ONE as u64);
    assert_eq!(rows.len(), 4);
    let mut world = vec![
        body(0, 0, 0, 0, 10 * ONE as u64, 0),
        body(100 * ONE, 0, 0, ONE / 2, 10 * ONE as u64, 1),
        body(0, 50 * ONE, ONE, 0, 5 * ONE as u64, 2),
    ];
    for row in rows.iter() {
        assert_eq!(row.len(), 3);
        for (i, p) in world.iter().enumerate() {
            assert_eq!(row[i], p.pos);
        }
        tick(&mut world, 0, ONE as u64, ONE as u64);
    }
    assert_eq!(rows[0][2], Vec2 { x: 0, y: 50 * ONE });
    assert_eq!(rows[1][2].x, ONE);
}

#[test]
fn validity_check_matches_the_limits() {
    assert!(body(0, 0, 0, 0, ONE as u64, 0).is_valid());
    assert!(!body(0, 0, 0, 0, 0, 0).is_valid());
    assert!(!body(COORD_LIMIT + 1, 0, 0, 0, ONE as u64, 0).is_valid());
    assert!(!body(0, 0, 0, -COORD_LIMIT - 1, ONE as u64, 0).is_valid());
    assert!(!body(0, 0, 0, 0, planets::MAX_MASS + 1, 0).is_valid());
    let mut p = body(0, 0, 0, 0, ONE as u64, 0);
    p.trail.push(Vec2 { x: 0, y: COORD_LIMIT + 1 });
    assert!(!p.is_valid());
}

#[test]
fn positions_saturate_at_the_limit() {
    let mut planets = vec![body(COORD_LIMIT - 5, -COORD_LIMIT + 3, 100, -100, ONE as u64, 0)];
    tick(&mut planets, 0, 0, 0);
    assert_eq!(planets[0].pos, Vec2 { x: COORD_LIMIT, y: -COORD_LIMIT });
    assert!(planets[0].is_valid());
}
