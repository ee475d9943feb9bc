use planets::{
    field_of, pull, strength_of, Color, Kd, Planet, Plannet, Vec2, FIELD_FACTOR, LEAF_CAPACITY, ONE,
};

fn plannet(x: i64, y: i64, mass: u64, id: i32) -> Plannet {
    Plannet::new(Vec2 { x, y }, Vec2 { x: 0, y: 0 }, mass, ONE as u64, id)
}

/// A fixed pseudo-random cloud of `n` bodies with ids `0..n`.
fn cloud(n: usize, seed: u64) -> Vec<Plannet> {
    let mut state = seed;
    let mut next = move || {
        state = state.wrapping_mul(6364136223846793005).wrapping_add(1442695040888963407);
        (state >> 33) as i64
    };
    (0..n)
        .map(|i| {
            let x = next() % (400 * ONE) - 200 * ONE;
            let y = next() % (300 * ONE) - 150 * ONE;
            let m = (next() % (20 * ONE) + ONE) as u64;
            plannet(x, y, m, i as i32)
        })
        .collect()
}

fn sorted_ids(v: &[Plannet]) -> Vec<i32> {
    let mut ids: Vec<i32> = v.iter().map(|p| p.id).collect();
    ids.sort();
    ids
}

fn assert_covers(input: Vec<Plannet>) {
    let expected = sorted_ids(&input);
    let n = input.len();
    let kd = Kd::new(input);
    assert_eq!(kd.is_leaf(), n <= LEAF_CAPACITY);
    let out = kd.drain();
    assert_eq!(out.len(), n);
    assert_eq!(sorted_ids(&out), expected);
}

fn as_planets(v: &[Plannet]) -> Vec<Planet> {
    let white = Color { r: 255, g: 255, b: 255, a: 255 };
    v.iter().map(|p| Planet::new(p.pos, p.vel, p.mass, p.size, p.id, white)).collect()
}

#[test]
fn coverage_of_small_and_large_inputs() {
    for n in [0usize, 1, 2, 3, 100] {
        assert_covers(cloud(n, 7 + n as u64));
    }
}

#[test]
fn coverage_of_colinear_bodies() {
    let v: Vec<Plannet> = (0..37).map(|i| plannet(0, (i as i64 - 18) * ONE, ONE as u64, i)).collect();
    assert_covers(v);
    let w: Vec<Plannet> = (0..20).map(|i| plannet(i as i64 * ONE, i as i64 * ONE, ONE as u64, i)).collect();
    assert_covers(w);
}

#[test]
fn coverage_of_coincident_bodies() {
    let v: Vec<Plannet> = (0..9).map(|i| plannet(5 * ONE, -3 * ONE, ONE as u64, i)).collect();
    assert_covers(v);
    let mut w: Vec<Plannet> = (0..6).map(|i| plannet(ONE, ONE, ONE as u64, i)).collect();
    w.extend((6..12).map(|i| plannet(-ONE, 2 * ONE, ONE as u64, i)));
    assert_covers(w);
}

#[test]
fn identical_positions_build_terminates() {
    let v: Vec<Plannet> = (0..1000).map(|i| plannet(123, -456, ONE as u64, i)).collect();
    assert_covers(v);
}

#[test]
fn single_body_is_a_single_leaf() {
    let mut bodies: Vec<Plannet> = cloud(4, 1);
    bodies.clear();
    bodies.push(plannet(2 * ONE, 3 * ONE, 5 * ONE as u64, 41));
    let kd = Kd::new(bodies);
    assert!(kd.is_leaf());
    let out = kd.drain();
    assert_eq!(out.len(), 1);
    assert_eq!(out[0].id, 41);
    assert_eq!(out[0].pos, Vec2 { x: 2 * ONE, y: 3 * ONE });
}

#[test]
fn center_of_mass_is_weighted_mean() {
    let kd = Kd::new(vec![
        plannet(0, 0, ONE as u64, 0),
        plannet(4 * ONE, 0, 3 * ONE as u64, 1),
        plannet(4 * ONE, 8 * ONE, 4 * ONE as u64, 2),
    ]);
    let (mass, at) = kd.center_of_mass();
    assert_eq!(mass, 8 * ONE as u128);
    // x: (0 + 12 + 16) / 8 = 3.5, y: 32 / 8 = 4.
    assert_eq!(at, Vec2 { x: 7 * ONE / 2, y: 4 * ONE });
}

#[test]
fn center_of_mass_rounds_toward_zero() {
    let kd = Kd::new(vec![plannet(-1, -2, 2, 0), plannet(0, 0, 1, 1)]);
    let (mass, at) = kd.center_of_mass();
    assert_eq!(mass, 3);
    // x: -2 / 3 and y: -4 / 3, rounded toward zero.
    assert_eq!(at, Vec2 { x: 0, y: -1 });
}

#[test]
fn center_of_mass_matches_sums_for_a_cloud() {
    let v = cloud(100, 3);
    let total: u128 = v.iter().map(|p| p.mass as u128).sum();
    let mx: i128 = v.iter().map(|p| p.mass as i128 * p.pos.x as i128).sum();
    let my: i128 = v.iter().map(|p| p.mass as i128 * p.pos.y as i128).sum();
    let kd = Kd::new(v);
    let (mass, at) = kd.center_of_mass();
    assert_eq!(mass, total);
    assert_eq!(at.x as i128, mx / total as i128);
    assert_eq!(at.y as i128, my / total as i128);
}

#[test]
fn empty_partition_has_no_mass() {
    let kd = Kd::new(Vec::new());
    assert_eq!(kd.center_of_mass(), (0, Vec2 { x: 0, y: 0 }));
    assert_eq!(kd.approximate_force(Vec2 { x: 0, y: 0 }, 3), Vec2 { x: 0, y: 0 });
}

#[test]
fn approximation_converges_to_exact_sum() {
    let v = cloud(50, 11);
    let planets = as_planets(&v);
    let probe = v[17].pos;
    let exact = field_of(&planets, probe, None, FIELD_FACTOR);
    let kd = Kd::new(v);
    let full = kd.approximate_force(probe, 127);
    assert_eq!((full.x as i128, full.y as i128), exact);
    let mut errors = Vec::new();
    for depth in 0..12i8 {
        let a = kd.approximate_force(probe, depth);
        let e = (a.x as i128 - exact.0).abs() + (a.y as i128 - exact.1).abs();
        errors.push(e);
    }
    assert_eq!(*errors.last().unwrap(), 0);
    assert!(errors[0] > 0);
}

#[test]
fn approximation_at_depth_zero_uses_the_center_of_mass() {
    let v = cloud(30, 5);
    let kd = Kd::new(v);
    let probe = Vec2 { x: 1000 * ONE, y: -700 * ONE };
    let (mass, at) = kd.center_of_mass();
    let expected = pull(probe, at, strength_of(mass, FIELD_FACTOR));
    assert_eq!(kd.approximate_force(probe, 0), expected);
}

#[test]
fn approximation_in_a_leaf_skips_the_probe_body() {
    let kd = Kd::new(vec![plannet(0, 0, ONE as u64, 0), plannet(2 * ONE, 0, ONE as u64, 1)]);
    let f = kd.approximate_force(Vec2 { x: 0, y: 0 }, 0);
    assert_eq!(f, Vec2 { x: ONE / 4, y: 0 });
}

#[test]
fn for_each_visits_every_body() {
    let v = cloud(40, 9);
    let expected = sorted_ids(&v);
    let mut kd = Kd::new(v);
    let shift = |p: Plannet| {
        Plannet::new(Vec2 { x: p.pos.x + ONE, y: p.pos.y }, p.vel, p.mass * 2, p.size, p.id)
    };
    let (mass_before, at_before) = kd.center_of_mass();
    kd.for_each(&shift);
    let (mass_after, at_after) = kd.center_of_mass();
    assert_eq!(mass_after, 2 * mass_before);
    assert!((at_after.x - at_before.x - ONE).abs() <= 1);
    assert!((at_after.y - at_before.y).abs() <= 1);
    let out = kd.drain();
    assert_eq!(sorted_ids(&out), expected);
}
