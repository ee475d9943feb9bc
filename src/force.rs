use vstd::prelude::*;
use crate::geom::{clamp_spec, dist_sq, Vec2, COORD_LIMIT};

verus! {

/// Largest `strength` that [`pull`] accepts: with coordinates bounded by
/// `COORD_LIMIT` every intermediate product then fits in 128 bits.
pub const MAX_STRENGTH: u128 = 19342813113834066795298816;

/// Whether `r` is the square root of `n` rounded down.
pub open spec fn is_floor_sqrt(r: int, n: int) -> bool {
    0 <= r && r * r <= n < (r + 1) * (r + 1)
}

/// The square root of `n`, rounded down.
pub open spec fn floor_sqrt(n: nat) -> nat {
    choose|r: nat| is_floor_sqrt(r as int, n as int)
}

proof fn lemma_floor_sqrt_unique(r: int, s: int, n: int)
    requires
        is_floor_sqrt(r, n),
        is_floor_sqrt(s, n),
    ensures
        r == s,
{
    if r < s {
        assert((r + 1) * (r + 1) <= s * s) by (nonlinear_arith)
            requires
                0 <= r + 1 <= s,
        ;
    } else if s < r {
        assert((s + 1) * (s + 1) <= r * r) by (nonlinear_arith)
            requires
                0 <= s + 1 <= r,
        ;
    }
}

/// The square root of `n` rounded down, found by bisection.
pub fn isqrt(n: u128) -> (r: u128)
    requires
        n < 1267650600228229401496703205376,
    ensures
        r == floor_sqrt(n as nat),
        is_floor_sqrt(r as int, n as int),
{
    let mut lo: u128 = 0;
    let mut hi: u128 = 1125899906842624;
    assert(hi * hi == 1267650600228229401496703205376);
    while hi - lo > 1
        invariant
            lo < hi <= 1125899906842624,
            lo * lo <= n < hi * hi,
        decreases hi - lo,
    {
        let mid: u128 = lo + (hi - lo) / 2;
        assert(mid * mid <= 1267650600228229401496703205376) by (nonlinear_arith)
            requires
                mid <= 1125899906842624,
        ;
        if mid * mid <= n {
            lo = mid;
        } else {
            hi = mid;
        }
    }
    proof {
        assert(is_floor_sqrt(lo as int, n as int));
        let s = floor_sqrt(n as nat);
        assert(is_floor_sqrt(s as int, n as int));
        lemma_floor_sqrt_unique(lo as int, s as int, n as int);
    }
    lo
}

/// One component of an inverse-square pull: the displacement component `dc`
/// times `strength`, divided by the cube of the distance (whose square is
/// `d2`), rounded toward zero and saturated. Coincident points pull with zero.
pub open spec fn pull_component(dc: int, d2: nat, strength: nat) -> int {
    let den = d2 * floor_sqrt(d2);
    if d2 == 0 {
        0
    } else if dc >= 0 {
        clamp_spec(dc * strength / den as int)
    } else {
        -clamp_spec((-dc) * strength / den as int)
    }
}

/// The pull felt at `from` towards a mass at `to`: the unit vector from `from`
/// to `to`, times `strength`, over the squared distance.
pub open spec fn pull_spec(from: Vec2, to: Vec2, strength: nat) -> (int, int) {
    let d2 = dist_sq(from, to);
    (pull_component(to.x - from.x, d2, strength), pull_component(to.y - from.y, d2, strength))
}

fn scaled_component(mag: u128, negative: bool, strength: u128, den: u128) -> (r: i64)
    requires
        mag <= 2199023255552,
        strength <= MAX_STRENGTH,
        den > 0,
    ensures
        negative ==> r == -clamp_spec((mag * strength) as int / den as int),
        !negative ==> r == clamp_spec((mag * strength) as int / den as int),
{
    assert(mag * strength <= 2199023255552 * MAX_STRENGTH) by (nonlinear_arith)
        requires
            mag <= 2199023255552,
            strength <= MAX_STRENGTH,
    ;
    let q: u128 = mag * strength / den;
    let c: i64 = if q > COORD_LIMIT as u128 {
        COORD_LIMIT
    } else {
        q as i64
    };
    if negative {
        -c
    } else {
        c
    }
}

/// The pull felt at `from` towards a mass at `to`, scaled by `strength`.
pub fn pull(from: Vec2, to: Vec2, strength: u128) -> (r: Vec2)
    requires
        from.in_range(),
        to.in_range(),
        strength <= MAX_STRENGTH,
    ensures
        r.x == pull_spec(from, to, strength as nat).0,
        r.y == pull_spec(from, to, strength as nat).1,
        r.in_range(),
{
    let dx: i64 = to.x - from.x;
    let dy: i64 = to.y - from.y;
    let ax: u128 = if dx < 0 {
        (-dx) as u128
    } else {
        dx as u128
    };
    let ay: u128 = if dy < 0 {
        (-dy) as u128
    } else {
        dy as u128
    };
    assert(ax * ax == dx * dx) by (nonlinear_arith)
        requires
            ax == dx || ax == -dx,
    ;
    assert(ay * ay == dy * dy) by (nonlinear_arith)
        requires
            ay == dy || ay == -dy,
    ;
    assert(ax * ax <= 2199023255552 * 2199023255552) by (nonlinear_arith)
        requires
            ax <= 2199023255552,
    ;
    assert(ay * ay <= 2199023255552 * 2199023255552) by (nonlinear_arith)
        requires
            ay <= 2199023255552,
    ;
    let d2: u128 = ax * ax + ay * ay;
    assert(d2 == dist_sq(from, to));
    if d2 == 0 {
        return Vec2 { x: 0, y: 0 };
    }
    let root: u128 = isqrt(d2);
    assert(root <= 4398046511104) by (nonlinear_arith)
        requires
            root * root <= d2,
            d2 <= 9671406556917033397649408,
    ;
    assert(d2 * root <= 9671406556917033397649408 * 4398046511104) by (nonlinear_arith)
        requires
            root <= 4398046511104,
            d2 <= 9671406556917033397649408,
    ;
    assert(d2 * root > 0) by (nonlinear_arith)
        requires
            d2 > 0,
            root * root <= d2 < (root + 1) * (root + 1),
    ;
    let den: u128 = d2 * root;
    let x = scaled_component(ax, dx < 0, strength, den);
    let y = scaled_component(ay, dy < 0, strength, den);
    Vec2 { x, y }
}

} // verus!
