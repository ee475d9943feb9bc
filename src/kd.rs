use vstd::prelude::*;
use vstd::seq_lib::lemma_multiset_commutative;
use crate::field::{add_pull, field_sum, strength, strength_of, PointMass, FIELD_FACTOR, MAX_FACTOR, MAX_MASS};
use crate::force::{pull, pull_spec};
use crate::geom::{Vec2, COORD_LIMIT};
use crate::plannet::Plannet;

verus! {

/// A subtree of at most this many bodies is a leaf.
pub const LEAF_CAPACITY: usize = 2;

/// Largest number of bodies a partition holds: with it the aggregate mass and
/// moments of any subtree fit their integer types.
pub const MAX_BODIES: usize = 1048576;

/// The sum of a sequence of integers.
pub open spec fn sum_of(s: Seq<int>) -> int
    decreases s.len(),
{
    if s.len() == 0 {
        0
    } else {
        sum_of(s.drop_last()) + s.last()
    }
}

proof fn lemma_sum_append(a: Seq<int>, b: Seq<int>)
    ensures
        sum_of(a + b) == sum_of(a) + sum_of(b),
    decreases b.len(),
{
    if b.len() == 0 {
        assert(a + b =~= a);
    } else {
        lemma_sum_append(a, b.drop_last());
        assert((a + b).drop_last() =~= a + b.drop_last());
    }
}

proof fn lemma_sum_bounds(s: Seq<int>, lo: int, hi: int)
    requires
        forall|i: int| 0 <= i < s.len() ==> lo <= #[trigger] s[i] <= hi,
    ensures
        s.len() * lo <= sum_of(s) <= s.len() * hi,
    decreases s.len(),
{
    if s.len() > 0 {
        let t = s.drop_last();
        assert forall|i: int| 0 <= i < t.len() implies lo <= #[trigger] t[i] <= hi by {
            assert(t[i] == s[i]);
        }
        lemma_sum_bounds(t, lo, hi);
        assert(s.len() * lo == t.len() * lo + lo) by (nonlinear_arith)
            requires
                s.len() == t.len() + 1,
        ;
        assert(s.len() * hi == t.len() * hi + hi) by (nonlinear_arith)
            requires
                s.len() == t.len() + 1,
        ;
    }
}

/// The coordinate of a body along the x axis, or along the y axis.
pub open spec fn axis_key(p: Plannet, x_axis: bool) -> int {
    if x_axis {
        p.pos.x as int
    } else {
        p.pos.y as int
    }
}

/// The masses of the bodies, in order.
pub open spec fn masses(s: Seq<Plannet>) -> Seq<int> {
    s.map_values(|p: Plannet| p.mass as int)
}

/// Each body's mass times its coordinate along one axis, in order.
pub open spec fn moments(s: Seq<Plannet>, x_axis: bool) -> Seq<int> {
    s.map_values(|p: Plannet| p.mass * axis_key(p, x_axis))
}

/// The bodies' coordinates along one axis, in order.
pub open spec fn keys(s: Seq<Plannet>, x_axis: bool) -> Seq<int> {
    s.map_values(|p: Plannet| axis_key(p, x_axis))
}

/// The total mass of the bodies.
pub open spec fn total_mass(s: Seq<Plannet>) -> int {
    sum_of(masses(s))
}

/// The mass-weighted sum of the bodies' coordinates along one axis.
pub open spec fn moment(s: Seq<Plannet>, x_axis: bool) -> int {
    sum_of(moments(s, x_axis))
}

/// `a / b` rounded toward zero.
pub open spec fn quotient(a: int, b: int) -> int {
    if a >= 0 {
        a / b
    } else {
        -((-a) / b)
    }
}

/// The mass-weighted mean position of the bodies, each coordinate rounded
/// toward zero; the origin when there is no mass.
pub open spec fn centroid(s: Seq<Plannet>) -> Vec2 {
    if total_mass(s) == 0 {
        Vec2 { x: 0, y: 0 }
    } else {
        Vec2 {
            x: quotient(moment(s, true), total_mass(s)) as i64,
            y: quotient(moment(s, false), total_mass(s)) as i64,
        }
    }
}

/// The point masses of the bodies, in order.
pub open spec fn plannet_masses(s: Seq<Plannet>) -> Seq<PointMass> {
    s.map_values(|p: Plannet| p.point_mass())
}

/// Every body is well formed.
pub open spec fn all_wf(s: Seq<Plannet>) -> bool {
    forall|i: int| 0 <= i < s.len() ==> (#[trigger] s[i]).point_mass().wf()
}

/// The aggregates of two groups of bodies together are the sums of theirs: a
/// split's total mass and mass-weighted coordinate sums are those of its two
/// halves added.
pub proof fn lemma_aggregates_append(a: Seq<Plannet>, b: Seq<Plannet>)
    ensures
        total_mass(a + b) == total_mass(a) + total_mass(b),
        moment(a + b, true) == moment(a, true) + moment(b, true),
        moment(a + b, false) == moment(a, false) + moment(b, false),
{
    assert(masses(a + b) =~= masses(a) + masses(b));
    assert(moments(a + b, true) =~= moments(a, true) + moments(b, true));
    assert(moments(a + b, false) =~= moments(a, false) + moments(b, false));
    lemma_sum_append(masses(a), masses(b));
    lemma_sum_append(moments(a, true), moments(b, true));
    lemma_sum_append(moments(a, false), moments(b, false));
}

proof fn lemma_aggregates_bounded(s: Seq<Plannet>)
    requires
        all_wf(s),
    ensures
        0 <= total_mass(s) <= s.len() * MAX_MASS,
        -(COORD_LIMIT * total_mass(s)) <= moment(s, true) <= COORD_LIMIT * total_mass(s),
        -(COORD_LIMIT * total_mass(s)) <= moment(s, false) <= COORD_LIMIT * total_mass(s),
    decreases s.len(),
{
    if s.len() > 0 {
        let t = s.drop_last();
        let p = s.last();
        assert(all_wf(t)) by {
            assert forall|i: int| 0 <= i < t.len() implies (#[trigger] t[i]).point_mass().wf() by {
                assert(t[i] == s[i]);
            }
        }
        lemma_aggregates_bounded(t);
        assert(masses(s).drop_last() =~= masses(t));
        assert(moments(s, true).drop_last() =~= moments(t, true));
        assert(moments(s, false).drop_last() =~= moments(t, false));
        assert(p.point_mass().wf());
        assert(-COORD_LIMIT * p.mass <= p.mass * p.pos.x <= COORD_LIMIT * p.mass) by (nonlinear_arith)
            requires
                -COORD_LIMIT <= p.pos.x <= COORD_LIMIT,
                0 <= p.mass,
        ;
        assert(-COORD_LIMIT * p.mass <= p.mass * p.pos.y <= COORD_LIMIT * p.mass) by (nonlinear_arith)
            requires
                -COORD_LIMIT <= p.pos.y <= COORD_LIMIT,
                0 <= p.mass,
        ;
        assert(s.len() * MAX_MASS == t.len() * MAX_MASS + MAX_MASS) by (nonlinear_arith)
            requires
                s.len() == t.len() + 1,
        ;
        assert(COORD_LIMIT * total_mass(s) == COORD_LIMIT * total_mass(t) + COORD_LIMIT * p.mass)
            by (nonlinear_arith)
            requires
                total_mass(s) == total_mass(t) + p.mass,
        ;
    }
}

/// A spatial partition over a set of bodies, with the total mass and the
/// mass-weighted coordinate sums of every subtree kept beside it.
pub struct Kd {
    inner: KdSplit,
    mass: u128,
    moment_x: i128,
    moment_y: i128,
}

enum KdSplit {
    /// Bodies split along one axis at the mean coordinate `split`; those on
    /// the left lie at or below it.
    Partition { x_split: bool, split: i64, left: Box<Kd>, right: Box<Kd> },
    /// A leaf of at most `LEAF_CAPACITY` bodies.
    Node(Vec<Plannet>),
}

impl KdSplit {
    closed spec fn bodies(&self) -> Seq<Plannet>
        decreases self,
    {
        match self {
            KdSplit::Node(v) => v@,
            KdSplit::Partition { left, right, .. } => left.bodies() + right.bodies(),
        }
    }

    closed spec fn wf(&self) -> bool
        decreases self,
    {
        match self {
            KdSplit::Node(v) => v@.len() <= LEAF_CAPACITY,
            KdSplit::Partition { left, right, .. } => {
                &&& left.wf()
                &&& right.wf()
                &&& left.bodies().len() > 0
                &&& right.bodies().len() > 0
            },
        }
    }

    closed spec fn height(&self) -> nat
        decreases self,
    {
        match self {
            KdSplit::Node(_) => 0,
            KdSplit::Partition { left, right, .. } => {
                let l = left.height();
                let r = right.height();
                1 + if l >= r {
                    l
                } else {
                    r
                }
            },
        }
    }
}

impl Kd {
    /// The bodies of the partition, leaf by leaf from left to right.
    pub closed spec fn bodies(&self) -> Seq<Plannet>
        decreases self,
    {
        self.inner.bodies()
    }

    /// The number of partition levels above the deepest leaf.
    pub closed spec fn height(&self) -> nat
        decreases self,
    {
        self.inner.height()
    }

    /// Whether the whole partition is a single leaf.
    pub closed spec fn is_leaf_spec(&self) -> bool {
        self.inner is Node
    }

    /// Every leaf holds at most `LEAF_CAPACITY` bodies, both sides of every
    /// split are non-empty, the kept aggregates are those of the bodies, and
    /// there are at most `MAX_BODIES` well-formed bodies.
    pub closed spec fn wf(&self) -> bool
        decreases self,
    {
        &&& self.mass == total_mass(self.bodies())
        &&& self.moment_x == moment(self.bodies(), true)
        &&& self.moment_y == moment(self.bodies(), false)
        &&& self.bodies().len() <= MAX_BODIES
        &&& all_wf(self.bodies())
        &&& self.inner.wf()
    }
}

/// The total mass and the mass-weighted coordinate sums of the bodies.
fn aggregates(v: &Vec<Plannet>) -> (r: (u128, i128, i128))
    requires
        v@.len() <= MAX_BODIES,
        all_wf(v@),
    ensures
        r.0 == total_mass(v@),
        r.1 == moment(v@, true),
        r.2 == moment(v@, false),
{
    let mut m: u128 = 0;
    let mut mx: i128 = 0;
    let mut my: i128 = 0;
    let mut i: usize = 0;
    while i < v.len()
        invariant
            v@.len() <= MAX_BODIES,
            all_wf(v@),
            0 <= i <= v@.len(),
            m == total_mass(v@.take(i as int)),
            mx == moment(v@.take(i as int), true),
            my == moment(v@.take(i as int), false),
        decreases v@.len() - i,
    {
        let p = &v[i];
        proof {
            let t = v@.take(i as int + 1);
            assert(t.drop_last() =~= v@.take(i as int));
            assert(masses(t).drop_last() =~= masses(v@.take(i as int)));
            assert(moments(t, true).drop_last() =~= moments(v@.take(i as int), true));
            assert(moments(t, false).drop_last() =~= moments(v@.take(i as int), false));
            assert(all_wf(t)) by {
                assert forall|k: int| 0 <= k < t.len() implies (#[trigger] t[k]).point_mass().wf() by {
                    assert(t[k] == v@[k]);
                }
            }
            lemma_aggregates_bounded(t);
            assert(t.len() * MAX_MASS <= MAX_BODIES * MAX_MASS) by (nonlinear_arith)
                requires
                    t.len() <= MAX_BODIES,
            ;
            assert(COORD_LIMIT * total_mass(t) <= COORD_LIMIT * (MAX_BODIES * MAX_MASS)) by (nonlinear_arith)
                requires
                    0 <= total_mass(t) <= MAX_BODIES * MAX_MASS,
            ;
            assert(-COORD_LIMIT * MAX_MASS <= p.mass * p.pos.x <= COORD_LIMIT * MAX_MASS) by (nonlinear_arith)
                requires
                    -COORD_LIMIT <= p.pos.x <= COORD_LIMIT,
                    0 <= p.mass <= MAX_MASS,
            ;
            assert(-COORD_LIMIT * MAX_MASS <= p.mass * p.pos.y <= COORD_LIMIT * MAX_MASS) by (nonlinear_arith)
                requires
                    -COORD_LIMIT <= p.pos.y <= COORD_LIMIT,
                    0 <= p.mass <= MAX_MASS,
            ;
            assert(masses(t).last() == p.mass);
            assert(moments(t, true).last() == p.mass * p.pos.x);
            assert(moments(t, false).last() == p.mass * p.pos.y);
            assert(total_mass(t) == m + p.mass);
            assert(moment(t, true) == mx + p.mass * p.pos.x);
            assert(moment(t, false) == my + p.mass * p.pos.y);
        }
        m = m + p.mass as u128;
        mx = mx + (p.mass as i128) * (p.pos.x as i128);
        my = my + (p.mass as i128) * (p.pos.y as i128);
        i = i + 1;
    }
    proof {
        assert(v@.take(i as int) =~= v@);
    }
    (m, mx, my)
}

/// `a / b` rounded toward zero, for `|a| <= COORD_LIMIT * b`.
fn quotient_of(a: i128, b: u128) -> (r: i64)
    requires
        0 < b <= MAX_BODIES * MAX_MASS,
        -(COORD_LIMIT * b) <= a <= COORD_LIMIT * b,
    ensures
        r == quotient(a as int, b as int),
        -COORD_LIMIT <= r <= COORD_LIMIT,
{
    assert(COORD_LIMIT * b <= COORD_LIMIT * (MAX_BODIES * MAX_MASS)) by (nonlinear_arith)
        requires
            b <= MAX_BODIES * MAX_MASS,
    ;
    let mag: u128 = if a < 0 {
        (-a) as u128
    } else {
        a as u128
    };
    proof {
        vstd::arithmetic::div_mod::lemma_div_is_ordered(mag as int, COORD_LIMIT * b, b as int);
        vstd::arithmetic::div_mod::lemma_div_multiples_vanish(COORD_LIMIT as int, b as int);
        assert(COORD_LIMIT * b == b * COORD_LIMIT) by (nonlinear_arith);
    }
    let q = (mag / b) as i64;
    if a < 0 {
        -q
    } else {
        q
    }
}

impl Kd {
    /// A leaf holding `v`.
    fn leaf(v: Vec<Plannet>) -> (r: Kd)
        requires
            v@.len() <= LEAF_CAPACITY,
            all_wf(v@),
        ensures
            r.wf(),
            r.bodies() == v@,
            r.is_leaf_spec(),
            r.height() == 0,
    {
        let (mass, moment_x, moment_y) = aggregates(&v);
        Kd { inner: KdSplit::Node(v), mass, moment_x, moment_y }
    }

    /// A split of `left` and `right`, with aggregates combined from theirs.
    fn partition(x_split: bool, split: i64, left: Kd, right: Kd) -> (r: Kd)
        requires
            left.wf(),
            right.wf(),
            left.bodies().len() > 0,
            right.bodies().len() > 0,
            left.bodies().len() + right.bodies().len() <= MAX_BODIES,
        ensures
            r.wf(),
            r.bodies() == left.bodies() + right.bodies(),
            !r.is_leaf_spec(),
            r.splits_on_x_spec() == x_split,
            ({
                &&& is_mean_split(left.bodies(), right.bodies(), x_split, split as int)
                &&& left.separated()
                &&& right.separated()
            }) ==> r.separated(),
    {
        proof {
            let (a, b) = (left.bodies(), right.bodies());
            lemma_aggregates_append(a, b);
            assert(all_wf(a + b)) by {
                assert forall|k: int| 0 <= k < (a + b).len() implies (#[trigger] (a + b)[k]).point_mass().wf() by {
                    if k < a.len() {
                        assert((a + b)[k] == a[k]);
                    } else {
                        assert((a + b)[k] == b[k - a.len()]);
                    }
                }
            }
            lemma_aggregates_bounded(a + b);
            assert((a + b).len() * MAX_MASS <= MAX_BODIES * MAX_MASS) by (nonlinear_arith)
                requires
                    (a + b).len() <= MAX_BODIES,
            ;
            lemma_aggregates_bounded(a);
            lemma_aggregates_bounded(b);
            assert(COORD_LIMIT * total_mass(a + b) <= COORD_LIMIT * (MAX_BODIES * MAX_MASS)) by (nonlinear_arith)
                requires
                    0 <= total_mass(a + b) <= MAX_BODIES * MAX_MASS,
            ;
            assert(COORD_LIMIT * total_mass(a) <= COORD_LIMIT * (MAX_BODIES * MAX_MASS)) by (nonlinear_arith)
                requires
                    0 <= total_mass(a) <= total_mass(a + b) <= MAX_BODIES * MAX_MASS,
            ;
            assert(COORD_LIMIT * total_mass(b) <= COORD_LIMIT * (MAX_BODIES * MAX_MASS)) by (nonlinear_arith)
                requires
                    0 <= total_mass(b) <= total_mass(a + b) <= MAX_BODIES * MAX_MASS,
            ;
        }
        let mass = left.mass + right.mass;
        let moment_x = left.moment_x + right.moment_x;
        let moment_y = left.moment_y + right.moment_y;
        Kd {
            inner: KdSplit::Partition { x_split, split, left: Box::new(left), right: Box::new(right) },
            mass,
            moment_x,
            moment_y,
        }
    }

    /// Whether the whole partition is a single leaf.
    pub fn is_leaf(&self) -> (r: bool)
        ensures
            r == self.is_leaf_spec(),
    {
        match &self.inner {
            KdSplit::Node(_) => true,
            KdSplit::Partition { .. } => false,
        }
    }

    /// The total mass of the bodies and their mass-weighted mean position.
    pub fn center_of_mass(&self) -> (r: (u128, Vec2))
        requires
            self.wf(),
        ensures
            r.0 == total_mass(self.bodies()),
            r.1 == centroid(self.bodies()),
            r.1.in_range(),
    {
        proof {
            lemma_aggregates_bounded(self.bodies());
        }
        if self.mass == 0 {
            (0, Vec2 { x: 0, y: 0 })
        } else {
            let x = quotient_of(self.moment_x, self.mass);
            let y = quotient_of(self.moment_y, self.mass);
            (self.mass, Vec2 { x, y })
        }
    }

    /// Takes the partition apart and hands back its bodies, leaf by leaf from
    /// left to right.
    pub fn drain(self) -> (r: Vec<Plannet>)
        ensures
            r@ == self.bodies(),
        decreases self,
    {
        match self.inner {
            KdSplit::Node(v) => v,
            KdSplit::Partition { left, right, .. } => {
                let mut a = (*left).drain();
                let mut b = (*right).drain();
                a.append(&mut b);
                a
            },
        }
    }
}

/// The bodies are in ascending order of their coordinate along one axis.
pub open spec fn sorted_on(s: Seq<Plannet>, x_axis: bool) -> bool {
    forall|a: int, b: int| 0 <= a < b < s.len() ==> axis_key(s[a], x_axis) <= axis_key(s[b], x_axis)
}

fn key_of(p: &Plannet, x_axis: bool) -> (r: i64)
    ensures
        r == axis_key(*p, x_axis),
{
    if x_axis {
        p.pos.x
    } else {
        p.pos.y
    }
}

/// Sorts the bodies by their coordinate along one axis, by insertion.
fn sort_on_axis(v: Vec<Plannet>, x_axis: bool) -> (r: Vec<Plannet>)
    ensures
        r@.to_multiset() == v@.to_multiset(),
        r@.len() == v@.len(),
        sorted_on(r@, x_axis),
{
    broadcast use vstd::seq_lib::group_to_multiset_ensures;

    let mut input = v;
    let mut out: Vec<Plannet> = Vec::new();
    while input.len() > 0
        invariant
            out@.to_multiset().add(input@.to_multiset()) == v@.to_multiset(),
            out@.len() + input@.len() == v@.len(),
            sorted_on(out@, x_axis),
        decreases input@.len(),
    {
        let ghost before = input@;
        let p = input.pop().unwrap();
        assert(before == input@.push(p));
        let k = key_of(&p, x_axis);
        let mut j: usize = 0;
        while j < out.len() && key_of(&out[j], x_axis) <= k
            invariant
                0 <= j <= out@.len(),
                forall|t: int| 0 <= t < j ==> axis_key(#[trigger] out@[t], x_axis) <= k,
            decreases out@.len() - j,
        {
            j = j + 1;
        }
        let ghost prev = out@;
        out.insert(j, p);
        proof {
            broadcast use vstd::multiset::group_multiset_axioms;

            assert(out@ == prev.insert(j as int, p));
            vstd::seq_lib::to_multiset_insert(prev, j as int, p);
            vstd::seq_lib::to_multiset_build(input@, p);
            assert(out@.to_multiset() == prev.to_multiset().insert(p));
            assert(before.to_multiset() == input@.to_multiset().insert(p));
            assert(out@.to_multiset().add(input@.to_multiset()) =~= prev.to_multiset().add(
                before.to_multiset(),
            ));
        }
        assert(sorted_on(out@, x_axis)) by {
            assert forall|a: int, b: int| 0 <= a < b < out@.len() implies axis_key(out@[a], x_axis)
                <= axis_key(out@[b], x_axis) by {
                if b < j {
                    assert(out@[a] == prev[a] && out@[b] == prev[b]);
                } else if b == j {
                    assert(out@[a] == prev[a]);
                } else if a == j {
                    assert(out@[b] == prev[b - 1]);
                    assert(axis_key(prev[j as int], x_axis) > k);
                    if j < b - 1 {
                        assert(axis_key(prev[j as int], x_axis) <= axis_key(prev[b - 1], x_axis));
                    }
                } else if a < j {
                    assert(out@[a] == prev[a] && out@[b] == prev[b - 1]);
                } else {
                    assert(out@[a] == prev[a - 1] && out@[b] == prev[b - 1]);
                }
            }
        }
    }
    assert(input@.to_multiset() =~= vstd::multiset::Multiset::empty());
    out
}

/// A property that every body of `a` has when every body of `b` has it and
/// the two hold the same bodies.
proof fn lemma_forall_by_multiset(a: Seq<Plannet>, b: Seq<Plannet>, pred: spec_fn(Plannet) -> bool)
    requires
        a.to_multiset() == b.to_multiset(),
        forall|i: int| 0 <= i < b.len() ==> pred(#[trigger] b[i]),
    ensures
        forall|i: int| 0 <= i < a.len() ==> pred(#[trigger] a[i]),
{
    broadcast use vstd::seq_lib::group_to_multiset_ensures;

    assert forall|i: int| 0 <= i < a.len() implies pred(#[trigger] a[i]) by {
        assert(a.contains(a[i]));
        assert(a.to_multiset().count(a[i]) > 0);
        assert(b.contains(a[i]));
    }
}

/// Sums over the bodies do not depend on their order.
proof fn lemma_sum_permutation(a: Seq<Plannet>, b: Seq<Plannet>, f: spec_fn(Plannet) -> int)
    requires
        a.to_multiset() == b.to_multiset(),
    ensures
        sum_of(a.map_values(f)) == sum_of(b.map_values(f)),
    decreases a.len(),
{
    broadcast use vstd::seq_lib::group_to_multiset_ensures;

    if a.len() == 0 {
        assert(a.to_multiset().len() == 0);
        assert(b.to_multiset().len() == b.len());
        assert(a.map_values(f) =~= Seq::<int>::empty());
        assert(b.map_values(f) =~= Seq::<int>::empty());
    } else {
        let x = a.last();
        let a1 = a.drop_last();
        assert(a1.push(x) == a);
        assert(a.to_multiset() == a1.to_multiset().insert(x));
        assert(a.to_multiset().count(x) > 0);
        assert(b.contains(x));
        let i = choose|i: int| 0 <= i < b.len() && b[i] == x;
        let b1 = b.remove(i);
        assert(b1.to_multiset() == b.to_multiset().remove(x));
        assert(a1.to_multiset() =~= b1.to_multiset()) by {
            broadcast use vstd::multiset::group_multiset_axioms;

        }
        lemma_sum_permutation(a1, b1, f);
        assert(a.map_values(f).drop_last() =~= a1.map_values(f));
        let (p, q) = (b.take(i), b.skip(i + 1));
        assert(b1 =~= p + q);
        assert(b =~= p + seq![x] + q);
        assert(b1.map_values(f) =~= p.map_values(f) + q.map_values(f));
        assert(b.map_values(f) =~= p.map_values(f) + seq![f(x)] + q.map_values(f));
        lemma_sum_append(p.map_values(f), q.map_values(f));
        lemma_sum_append(p.map_values(f) + seq![f(x)], q.map_values(f));
        lemma_sum_append(p.map_values(f), seq![f(x)]);
        assert(sum_of(seq![f(x)]) == f(x)) by {
            assert(seq![f(x)].drop_last() =~= Seq::<int>::empty());
            assert(sum_of(Seq::<int>::empty()) == 0);
        }
    }
}

proof fn lemma_sum_at_most(s: Seq<int>, m: int)
    requires
        forall|i: int| 0 <= i < s.len() ==> #[trigger] s[i] <= m,
    ensures
        sum_of(s) <= s.len() * m,
    decreases s.len(),
{
    if s.len() > 0 {
        let t = s.drop_last();
        assert(forall|i: int| 0 <= i < t.len() ==> #[trigger] t[i] == s[i]);
        lemma_sum_at_most(t, m);
        assert(s.len() * m == t.len() * m + m) by (nonlinear_arith)
            requires
                s.len() == t.len() + 1,
        ;
    }
}

/// A sum of integers none above `m`, one below it, is below `len * m`.
proof fn lemma_sum_strict(s: Seq<int>, m: int, j: int)
    requires
        forall|i: int| 0 <= i < s.len() ==> #[trigger] s[i] <= m,
        0 <= j < s.len(),
        s[j] < m,
    ensures
        sum_of(s) < s.len() * m,
    decreases s.len(),
{
    let t = s.drop_last();
    assert(forall|i: int| 0 <= i < t.len() ==> #[trigger] t[i] == s[i]);
    assert(s.len() * m == t.len() * m + m) by (nonlinear_arith)
        requires
            s.len() == t.len() + 1,
    ;
    if j == s.len() - 1 {
        lemma_sum_at_most(t, m);
    } else {
        lemma_sum_strict(t, m, j);
    }
}

/// The smallest coordinate of the bodies along one axis (zero for none).
pub open spec fn key_min(s: Seq<Plannet>, x_axis: bool) -> int
    decreases s.len(),
{
    if s.len() == 0 {
        0
    } else if s.len() == 1 {
        axis_key(s[0], x_axis)
    } else {
        let m = key_min(s.drop_last(), x_axis);
        let k = axis_key(s.last(), x_axis);
        if k < m {
            k
        } else {
            m
        }
    }
}

/// The largest coordinate of the bodies along one axis (zero for none).
pub open spec fn key_max(s: Seq<Plannet>, x_axis: bool) -> int
    decreases s.len(),
{
    if s.len() == 0 {
        0
    } else if s.len() == 1 {
        axis_key(s[0], x_axis)
    } else {
        let m = key_max(s.drop_last(), x_axis);
        let k = axis_key(s.last(), x_axis);
        if k > m {
            k
        } else {
            m
        }
    }
}

/// Whether a split of these bodies goes along the x axis: the x extent is at
/// least the y extent.
pub open spec fn splits_on_x(s: Seq<Plannet>) -> bool {
    key_max(s, true) - key_min(s, true) >= key_max(s, false) - key_min(s, false)
}

/// The mean coordinate of the bodies along one axis, rounded down.
pub open spec fn mean_key(s: Seq<Plannet>, x_axis: bool) -> int {
    sum_of(keys(s, x_axis)) / (s.len() as int)
}

/// Whether the x extent of the bodies is at least their y extent.
fn widest_axis_is_x(v: &Vec<Plannet>) -> (r: bool)
    requires
        v@.len() >= 1,
    ensures
        r == splits_on_x(v@),
{
    let mut min_x = v[0].pos.x;
    let mut max_x = v[0].pos.x;
    let mut min_y = v[0].pos.y;
    let mut max_y = v[0].pos.y;
    let mut i: usize = 1;
    while i < v.len()
        invariant
            1 <= i <= v@.len(),
            min_x == key_min(v@.take(i as int), true),
            max_x == key_max(v@.take(i as int), true),
            min_y == key_min(v@.take(i as int), false),
            max_y == key_max(v@.take(i as int), false),
        decreases v@.len() - i,
    {
        let p = &v[i];
        assert(v@.take(i + 1).drop_last() =~= v@.take(i as int));
        if p.pos.x < min_x {
            min_x = p.pos.x;
        }
        if p.pos.x > max_x {
            max_x = p.pos.x;
        }
        if p.pos.y < min_y {
            min_y = p.pos.y;
        }
        if p.pos.y > max_y {
            max_y = p.pos.y;
        }
        i = i + 1;
    }
    assert(v@.take(i as int) =~= v@);
    max_x as i128 - min_x as i128 >= max_y as i128 - min_y as i128
}

/// `a / n` rounded down.
fn floor_div(a: i128, n: i128) -> (r: i128)
    requires
        n > 0,
        a > i128::MIN,
    ensures
        r == a as int / n as int,
{
    if a >= 0 {
        a / n
    } else {
        let t = -a;
        let q = t / n;
        let m = t % n;
        proof {
            vstd::arithmetic::div_mod::lemma_fundamental_div_mod(t as int, n as int);
            assert(a == (-q) * n - m) by (nonlinear_arith)
                requires
                    t == n * q + m,
                    a == -t,
            ;
            assert(a == (-q - 1) * n + (n - m)) by (nonlinear_arith)
                requires
                    a == (-q) * n - m,
            ;
        }
        if m == 0 {
            proof {
                vstd::arithmetic::div_mod::lemma_fundamental_div_mod_converse(a as int, n as int, -q as int, 0);
            }
            -q
        } else {
            proof {
                vstd::arithmetic::div_mod::lemma_fundamental_div_mod_converse(
                    a as int,
                    n as int,
                    -q - 1,
                    n - m,
                );
            }
            -q - 1
        }
    }
}

/// The mean coordinate of the bodies along one axis, rounded down.
fn mean_on(v: &Vec<Plannet>, x_axis: bool) -> (r: i64)
    requires
        1 <= v@.len() <= MAX_BODIES,
        all_wf(v@),
    ensures
        r == mean_key(v@, x_axis),
        -COORD_LIMIT <= r <= COORD_LIMIT,
{
    let mut sum: i128 = 0;
    let mut i: usize = 0;
    while i < v.len()
        invariant
            v@.len() <= MAX_BODIES,
            all_wf(v@),
            0 <= i <= v@.len(),
            sum == sum_of(keys(v@.take(i as int), x_axis)),
            -(i as int) * COORD_LIMIT <= sum <= (i as int) * COORD_LIMIT,
        decreases v@.len() - i,
    {
        assert(keys(v@.take(i + 1), x_axis).drop_last() =~= keys(v@.take(i as int), x_axis));
        assert(v@[i as int].point_mass().wf());
        sum = sum + key_of(&v[i], x_axis) as i128;
        i = i + 1;
    }
    assert(v@.take(i as int) =~= v@);
    let n = v.len() as i128;
    proof {
        let ks = keys(v@, x_axis);
        assert forall|k: int| 0 <= k < ks.len() implies -COORD_LIMIT <= #[trigger] ks[k] <= COORD_LIMIT by {
            assert(v@[k].point_mass().wf());
        }
        lemma_sum_bounds(ks, -COORD_LIMIT, COORD_LIMIT as int);
        vstd::arithmetic::div_mod::lemma_div_is_ordered(ks.len() * -COORD_LIMIT, sum as int, n as int);
        vstd::arithmetic::div_mod::lemma_div_is_ordered(sum as int, ks.len() * COORD_LIMIT, n as int);
        vstd::arithmetic::div_mod::lemma_div_multiples_vanish(-COORD_LIMIT, n as int);
        vstd::arithmetic::div_mod::lemma_div_multiples_vanish(COORD_LIMIT as int, n as int);
        assert(ks.len() * -COORD_LIMIT == n * -COORD_LIMIT) by (nonlinear_arith)
            requires
                ks.len() == n,
        ;
        assert(ks.len() * COORD_LIMIT == n * COORD_LIMIT) by (nonlinear_arith)
            requires
                ks.len() == n,
        ;
    }
    floor_div(sum, n) as i64
}

/// The rule that a split of bodies into `lo` and `hi` follows: it goes along
/// the axis of the wider extent of all of them, x on a tie; the split value is
/// their mean coordinate on that axis, rounded down; `lo` lies at or below it
/// and `hi` at or above it. When some body lies beyond the split value, `hi`
/// holds exactly those bodies; otherwise every body sits at the split value
/// and `lo` takes one more than half of them.
pub open spec fn is_mean_split(lo: Seq<Plannet>, hi: Seq<Plannet>, x_split: bool, split: int) -> bool {
    let all = lo + hi;
    &&& x_split == splits_on_x(all)
    &&& split == mean_key(all, x_split)
    &&& forall|i: int| 0 <= i < lo.len() ==> axis_key(#[trigger] lo[i], x_split) <= split
    &&& forall|i: int| 0 <= i < hi.len() ==> axis_key(#[trigger] hi[i], x_split) >= split
    &&& if exists|i: int| 0 <= i < all.len() && axis_key(#[trigger] all[i], x_split) > split {
        forall|i: int| 0 <= i < hi.len() ==> axis_key(#[trigger] hi[i], x_split) > split
    } else {
        lo.len() == all.len() / 2 + 1
    }
}

proof fn lemma_key_extremes(s: Seq<Plannet>, x_axis: bool)
    requires
        s.len() > 0,
    ensures
        exists|i: int| 0 <= i < s.len() && axis_key(#[trigger] s[i], x_axis) == key_min(s, x_axis),
        exists|i: int| 0 <= i < s.len() && axis_key(#[trigger] s[i], x_axis) == key_max(s, x_axis),
        forall|i: int|
            0 <= i < s.len() ==> key_min(s, x_axis) <= axis_key(#[trigger] s[i], x_axis) <= key_max(s, x_axis),
    decreases s.len(),
{
    if s.len() == 1 {
        assert(axis_key(s[0], x_axis) == key_min(s, x_axis));
        assert(axis_key(s[0], x_axis) == key_max(s, x_axis));
    } else {
        let t = s.drop_last();
        let n = s.len() - 1;
        lemma_key_extremes(t, x_axis);
        assert forall|i: int| 0 <= i < t.len() implies #[trigger] s[i] == t[i] by {}
        let a = choose|i: int| 0 <= i < t.len() && axis_key(#[trigger] t[i], x_axis) == key_min(t, x_axis);
        let b = choose|i: int| 0 <= i < t.len() && axis_key(#[trigger] t[i], x_axis) == key_max(t, x_axis);
        assert(s[a] == t[a] && s[b] == t[b]);
        if axis_key(s[n], x_axis) < key_min(t, x_axis) {
            assert(axis_key(s[n], x_axis) == key_min(s, x_axis));
        } else {
            assert(axis_key(s[a], x_axis) == key_min(s, x_axis));
        }
        if axis_key(s[n], x_axis) > key_max(t, x_axis) {
            assert(axis_key(s[n], x_axis) == key_max(s, x_axis));
        } else {
            assert(axis_key(s[b], x_axis) == key_max(s, x_axis));
        }
        assert forall|i: int| 0 <= i < s.len() implies key_min(s, x_axis) <= axis_key(#[trigger] s[i], x_axis)
            <= key_max(s, x_axis) by {
            if i < n {
                assert(s[i] == t[i]);
            }
        }
    }
}

/// The extents of the bodies do not depend on their order.
proof fn lemma_extents_permutation(a: Seq<Plannet>, b: Seq<Plannet>, x_axis: bool)
    requires
        a.to_multiset() == b.to_multiset(),
        a.len() > 0,
    ensures
        key_min(a, x_axis) == key_min(b, x_axis),
        key_max(a, x_axis) == key_max(b, x_axis),
{
    broadcast use vstd::seq_lib::group_to_multiset_ensures;

    vstd::seq_lib::to_multiset_len(a);
    vstd::seq_lib::to_multiset_len(b);
    lemma_key_extremes(a, x_axis);
    lemma_key_extremes(b, x_axis);
    let (lo_a, hi_a, lo_b, hi_b) = (key_min(a, x_axis), key_max(a, x_axis), key_min(b, x_axis), key_max(b, x_axis));
    lemma_forall_by_multiset(a, b, |p: Plannet| lo_b <= axis_key(p, x_axis) <= hi_b);
    lemma_forall_by_multiset(b, a, |p: Plannet| lo_a <= axis_key(p, x_axis) <= hi_a);
    let ia = choose|i: int| 0 <= i < a.len() && axis_key(#[trigger] a[i], x_axis) == lo_a;
    let ib = choose|i: int| 0 <= i < b.len() && axis_key(#[trigger] b[i], x_axis) == lo_b;
    let ja = choose|i: int| 0 <= i < a.len() && axis_key(#[trigger] a[i], x_axis) == hi_a;
    let jb = choose|i: int| 0 <= i < b.len() && axis_key(#[trigger] b[i], x_axis) == hi_b;
    assert(lo_b <= axis_key(a[ia], x_axis) && lo_a <= axis_key(b[ib], x_axis));
    assert(axis_key(a[ja], x_axis) <= hi_b && axis_key(b[jb], x_axis) <= hi_a);
}

/// Where a sorted list of bodies is split: before the first body beyond the
/// mean; when no body lies beyond it, every body sits at the mean and the list
/// is split just past its middle.
fn split_index(v: &Vec<Plannet>, x_axis: bool, mean: i64) -> (r: usize)
    requires
        LEAF_CAPACITY < v@.len() <= MAX_BODIES,
        all_wf(v@),
        sorted_on(v@, x_axis),
        mean == mean_key(v@, x_axis),
    ensures
        1 <= r < v@.len(),
        forall|i: int| 0 <= i < r ==> axis_key(#[trigger] v@[i], x_axis) <= mean,
        forall|i: int| r <= i < v@.len() ==> axis_key(#[trigger] v@[i], x_axis) >= mean,
        (exists|i: int| 0 <= i < v@.len() && axis_key(#[trigger] v@[i], x_axis) > mean) ==> forall|i: int|
            r <= i < v@.len() ==> axis_key(#[trigger] v@[i], x_axis) > mean,
        !(exists|i: int| 0 <= i < v@.len() && axis_key(#[trigger] v@[i], x_axis) > mean) ==> r == v@.len()
            / 2 + 1,
{
    let n = v.len();
    let ghost ks = keys(v@, x_axis);
    let ghost sum = sum_of(ks);
    proof {
        let k0 = axis_key(v@[0], x_axis);
        assert forall|k: int| 0 <= k < ks.len() implies k0 <= #[trigger] ks[k] <= COORD_LIMIT by {
            assert(v@[k].point_mass().wf());
            if k > 0 {
                assert(axis_key(v@[0], x_axis) <= axis_key(v@[k], x_axis));
            }
        }
        lemma_sum_bounds(ks, k0, COORD_LIMIT as int);
        vstd::arithmetic::div_mod::lemma_div_is_ordered(ks.len() * k0, sum, n as int);
        assert(ks.len() * k0 == k0 * n) by (nonlinear_arith)
            requires
                ks.len() == n,
        ;
        vstd::arithmetic::div_mod::lemma_div_multiples_vanish(k0, n as int);
        assert(k0 <= mean);
    }
    let mut i: usize = 0;
    while i < n && key_of(&v[i], x_axis) <= mean
        invariant
            0 <= i <= n,
            n == v@.len(),
            forall|k: int| 0 <= k < i ==> axis_key(#[trigger] v@[k], x_axis) <= mean,
        decreases n - i,
    {
        i = i + 1;
    }
    if i < n {
        assert forall|k: int| i <= k < v@.len() implies axis_key(#[trigger] v@[k], x_axis) > mean by {
            if k > i {
                assert(axis_key(v@[i as int], x_axis) <= axis_key(v@[k], x_axis));
            }
        }
        return i;
    }
    proof {
        vstd::arithmetic::div_mod::lemma_fundamental_div_mod(sum, n as int);
        vstd::arithmetic::div_mod::lemma_mod_bound(sum, n as int);
        assert(ks.len() * mean <= sum) by (nonlinear_arith)
            requires
                sum == n * (sum / (n as int)) + sum % (n as int),
                sum % (n as int) >= 0,
                mean == sum / (n as int),
                ks.len() == n,
        ;
        assert forall|k: int| 0 <= k < ks.len() implies #[trigger] ks[k] <= mean by {
            assert(axis_key(v@[k], x_axis) <= mean);
        }
        assert forall|k: int| 0 <= k < v@.len() implies axis_key(#[trigger] v@[k], x_axis) == mean by {
            if axis_key(v@[k], x_axis) < mean {
                assert(ks[k] < mean);
                lemma_sum_strict(ks, mean as int, k);
            }
        }
    }
    let mut count: usize = 0;
    let mut j: usize = 0;
    while j < n
        invariant
            0 <= j <= n,
            n == v@.len(),
            count == j,
            forall|k: int| 0 <= k < v@.len() ==> axis_key(#[trigger] v@[k], x_axis) == mean,
        decreases n - j,
    {
        if key_of(&v[j], x_axis) == mean {
            count = count + 1;
        }
        j = j + 1;
    }
    // Every body sits at the mean here, so the index is inside the list; the
    // bound check keeps it there whatever the count.
    let idx = count / 2 + 1;
    if idx < n {
        idx
    } else {
        n - 1
    }
}

impl KdSplit {
    closed spec fn separated(&self) -> bool
        decreases self,
    {
        match self {
            KdSplit::Node(_) => true,
            KdSplit::Partition { x_split, split, left, right } => {
                &&& is_mean_split(left.bodies(), right.bodies(), *x_split, *split as int)
                &&& left.separated()
                &&& right.separated()
            },
        }
    }
}

/// The halves that [`Kd::new`] builds follow the split rule: `whole` is the
/// input sorted, `lo` and `hi` its two parts, `lb` and `rb` the bodies of the
/// subtrees built from them.
proof fn lemma_split_rule(
    input: Seq<Plannet>,
    whole: Seq<Plannet>,
    lo: Seq<Plannet>,
    hi: Seq<Plannet>,
    lb: Seq<Plannet>,
    rb: Seq<Plannet>,
    x_split: bool,
    m: int,
    idx: int,
)
    requires
        whole.to_multiset() == input.to_multiset(),
        whole.len() > LEAF_CAPACITY,
        x_split == splits_on_x(input),
        m == mean_key(whole, x_split),
        whole == lo + hi,
        lo.len() == idx,
        lb.to_multiset() == lo.to_multiset(),
        rb.to_multiset() == hi.to_multiset(),
        1 <= idx < whole.len(),
        forall|i: int| 0 <= i < idx ==> axis_key(#[trigger] whole[i], x_split) <= m,
        forall|i: int| idx <= i < whole.len() ==> axis_key(#[trigger] whole[i], x_split) >= m,
        (exists|i: int| 0 <= i < whole.len() && axis_key(#[trigger] whole[i], x_split) > m) ==> forall|i: int|
            idx <= i < whole.len() ==> axis_key(#[trigger] whole[i], x_split) > m,
        !(exists|i: int| 0 <= i < whole.len() && axis_key(#[trigger] whole[i], x_split) > m) ==> idx
            == whole.len() / 2 + 1,
    ensures
        is_mean_split(lb, rb, x_split, m),
        (lb + rb).to_multiset() == input.to_multiset(),
        lb.len() + rb.len() == whole.len(),
{
    broadcast use vstd::seq_lib::group_to_multiset_ensures;

    lemma_multiset_commutative(lb, rb);
    lemma_multiset_commutative(lo, hi);
    vstd::seq_lib::to_multiset_len(lb);
    vstd::seq_lib::to_multiset_len(lo);
    vstd::seq_lib::to_multiset_len(rb);
    vstd::seq_lib::to_multiset_len(hi);
    assert forall|k: int| 0 <= k < lo.len() implies axis_key(#[trigger] lo[k], x_split) <= m by {
        assert(lo[k] == whole[k]);
    }
    assert forall|k: int| 0 <= k < hi.len() implies axis_key(#[trigger] hi[k], x_split) >= m by {
        assert(hi[k] == whole[k + idx]);
    }
    lemma_forall_by_multiset(lb, lo, |p: Plannet| axis_key(p, x_split) <= m);
    lemma_forall_by_multiset(rb, hi, |p: Plannet| axis_key(p, x_split) >= m);
    let f = |p: Plannet| axis_key(p, x_split);
    let all = lb + rb;
    lemma_sum_permutation(all, whole, f);
    assert(keys(all, x_split) =~= all.map_values(f));
    assert(keys(whole, x_split) =~= whole.map_values(f));
    lemma_extents_permutation(all, input, true);
    lemma_extents_permutation(all, input, false);
    if exists|i: int| 0 <= i < all.len() && axis_key(#[trigger] all[i], x_split) > m {
        if !exists|i: int| 0 <= i < whole.len() && axis_key(#[trigger] whole[i], x_split) > m {
            lemma_forall_by_multiset(all, whole, |p: Plannet| axis_key(p, x_split) <= m);
        }
        assert forall|k: int| 0 <= k < hi.len() implies axis_key(#[trigger] hi[k], x_split) > m by {
            assert(hi[k] == whole[k + idx]);
        }
        lemma_forall_by_multiset(rb, hi, |p: Plannet| axis_key(p, x_split) > m);
    } else {
        lemma_forall_by_multiset(whole, all, |p: Plannet| axis_key(p, x_split) <= m);
    }
}

impl Kd {
    /// Every split follows [`is_mean_split`] over the bodies of its two halves.
    pub closed spec fn separated(&self) -> bool
        decreases self,
    {
        self.inner.separated()
    }

    /// Whether the top split goes along the x axis (false for a leaf).
    pub closed spec fn splits_on_x_spec(&self) -> bool {
        match self.inner {
            KdSplit::Partition { x_split, .. } => x_split,
            KdSplit::Node(_) => false,
        }
    }

    /// Builds the partition of `plannets`. Up to `LEAF_CAPACITY` bodies form a
    /// single leaf. Otherwise the bodies are split along the axis of their
    /// wider extent, x on a tie, at their mean coordinate on it, and each half
    /// is partitioned in turn.
    pub fn new(plannets: Vec<Plannet>) -> (r: Kd)
        requires
            plannets@.len() <= MAX_BODIES,
            all_wf(plannets@),
        ensures
            r.wf(),
            r.separated(),
            r.bodies().to_multiset() == plannets@.to_multiset(),
            r.is_leaf_spec() <==> plannets@.len() <= LEAF_CAPACITY,
            plannets@.len() <= LEAF_CAPACITY ==> r.bodies() == plannets@,
            !r.is_leaf_spec() ==> r.splits_on_x_spec() == splits_on_x(plannets@),
        decreases plannets@.len(),
    {
        broadcast use vstd::seq_lib::group_to_multiset_ensures;

        let n = plannets.len();
        if n <= LEAF_CAPACITY {
            return Kd::leaf(plannets);
        }
        let x_split = widest_axis_is_x(&plannets);
        let ghost input = plannets@;
        let mut sorted = sort_on_axis(plannets, x_split);
        let ghost whole = sorted@;
        proof {
            lemma_forall_by_multiset(whole, input, |p: Plannet| p.point_mass().wf());
        }
        let mean = mean_on(&sorted, x_split);
        let idx = split_index(&sorted, x_split, mean);
        let other = sorted.split_off(idx);
        let ghost (lo, hi) = (sorted@, other@);
        proof {
            assert(whole =~= lo + hi);
            assert(all_wf(lo)) by {
                assert forall|k: int| 0 <= k < lo.len() implies (#[trigger] lo[k]).point_mass().wf() by {
                    assert(lo[k] == whole[k]);
                }
            }
            assert(all_wf(hi)) by {
                assert forall|k: int| 0 <= k < hi.len() implies (#[trigger] hi[k]).point_mass().wf() by {
                    assert(hi[k] == whole[k + idx]);
                }
            }
        }
        let left = Kd::new(sorted);
        let right = Kd::new(other);
        proof {
            lemma_split_rule(input, whole, lo, hi, left.bodies(), right.bodies(), x_split, mean as int, idx as int);
        }
        Kd::partition(x_split, mean, left, right)
    }
}

/// The plain inverse-square field at `pos` of the bodies of a leaf.
fn leaf_field(v: &Vec<Plannet>, pos: Vec2) -> (r: (i128, i128))
    requires
        all_wf(v@),
        v@.len() <= MAX_BODIES,
        pos.in_range(),
    ensures
        r.0 == field_sum(plannet_masses(v@), pos, None, FIELD_FACTOR as int).0,
        r.1 == field_sum(plannet_masses(v@), pos, None, FIELD_FACTOR as int).1,
        -(v@.len() as int) * COORD_LIMIT <= r.0 <= (v@.len() as int) * COORD_LIMIT,
        -(v@.len() as int) * COORD_LIMIT <= r.1 <= (v@.len() as int) * COORD_LIMIT,
{
    let mut ax: i128 = 0;
    let mut ay: i128 = 0;
    let mut i: usize = 0;
    while i < v.len()
        invariant
            all_wf(v@),
            v@.len() <= MAX_BODIES,
            pos.in_range(),
            0 <= i <= v@.len(),
            ax == field_sum(plannet_masses(v@.take(i as int)), pos, None, FIELD_FACTOR as int).0,
            ay == field_sum(plannet_masses(v@.take(i as int)), pos, None, FIELD_FACTOR as int).1,
            -(i as int) * COORD_LIMIT <= ax <= (i as int) * COORD_LIMIT,
            -(i as int) * COORD_LIMIT <= ay <= (i as int) * COORD_LIMIT,
        decreases v@.len() - i,
    {
        let d = &v[i];
        proof {
            assert(plannet_masses(v@.take(i + 1)).drop_last() =~= plannet_masses(v@.take(i as int)));
            assert(plannet_masses(v@.take(i + 1)).last() == d.point_mass());
            assert(v@[i as int].point_mass().wf());
        }
        let pm = PointMass { pos: d.pos, vel: d.vel, mass: d.mass, id: d.id };
        let r = add_pull(ax, ay, pos, pm, FIELD_FACTOR, Ghost(i as int));
        ax = r.0;
        ay = r.1;
        i = i + 1;
    }
    assert(v@.take(i as int) =~= v@);
    (ax, ay)
}

impl Kd {
    /// The field sample that [`Kd::approximate_force`] computes: a split with
    /// no budget left counts as one mass at its centre of mass; otherwise both
    /// halves are sampled with one level less; a leaf sums the field of its
    /// bodies.
    pub closed spec fn approx(&self, pos: Vec2, depth: int) -> (int, int)
        decreases self,
    {
        match self.inner {
            KdSplit::Node(v) => field_sum(plannet_masses(v@), pos, None, FIELD_FACTOR as int),
            KdSplit::Partition { left, right, .. } => {
                if depth == 0 {
                    pull_spec(pos, centroid(self.bodies()), strength(total_mass(self.bodies()), FIELD_FACTOR as int))
                } else {
                    let a = left.approx(pos, depth - 1);
                    let b = right.approx(pos, depth - 1);
                    (a.0 + b.0, a.1 + b.1)
                }
            },
        }
    }

    /// Samples the plain inverse-square field (mass over squared distance,
    /// towards each mass) at `pos`, descending at most `subdivisions` splits
    /// and counting each subtree below that as a single mass at its centre of
    /// mass. Bodies exactly at `pos` pull with zero.
    pub fn approximate_force(&self, pos: Vec2, subdivisions: i8) -> (r: Vec2)
        requires
            self.wf(),
            pos.in_range(),
            subdivisions >= 0,
        ensures
            r.x == self.approx(pos, subdivisions as int).0,
            r.y == self.approx(pos, subdivisions as int).1,
            -(self.bodies().len() as int) * COORD_LIMIT <= r.x <= (self.bodies().len() as int) * COORD_LIMIT,
            -(self.bodies().len() as int) * COORD_LIMIT <= r.y <= (self.bodies().len() as int) * COORD_LIMIT,
        decreases self,
    {
        match &self.inner {
            KdSplit::Partition { left, right, .. } => {
                if subdivisions == 0 {
                    let (mass, at) = self.center_of_mass();
                    proof {
                        lemma_aggregates_bounded(self.bodies());
                        assert(self.bodies().len() * MAX_MASS <= MAX_BODIES * MAX_MASS) by (nonlinear_arith)
                            requires
                                self.bodies().len() <= MAX_BODIES,
                        ;
                        assert(mass * FIELD_FACTOR <= MAX_MASS * MAX_FACTOR) by (nonlinear_arith)
                            requires
                                mass <= MAX_BODIES * MAX_MASS,
                        ;
                    }
                    let k = strength_of(mass, FIELD_FACTOR);
                    pull(pos, at, k)
                } else {
                    let a = left.approximate_force(pos, subdivisions - 1);
                    let b = right.approximate_force(pos, subdivisions - 1);
                    Vec2 { x: a.x + b.x, y: a.y + b.y }
                }
            },
            KdSplit::Node(v) => {
                let (x, y) = leaf_field(v, pos);
                Vec2 { x: x as i64, y: y as i64 }
            },
        }
    }
}

/// The centroid is the mass-weighted mean position: on each axis, the
/// centroid coordinate times the total mass differs from the mass-weighted
/// coordinate sum by less than the total mass.
pub proof fn lemma_centroid_is_weighted_mean(s: Seq<Plannet>)
    requires
        all_wf(s),
        total_mass(s) > 0,
    ensures
        0 <= (moment(s, true) - centroid(s).x * total_mass(s)) * sign(moment(s, true)) < total_mass(s),
        0 <= (moment(s, false) - centroid(s).y * total_mass(s)) * sign(moment(s, false)) < total_mass(s),
{
    lemma_aggregates_bounded(s);
    lemma_quotient_remainder(moment(s, true), total_mass(s));
    lemma_quotient_remainder(moment(s, false), total_mass(s));
}

/// The sign of an integer, with zero counted as positive.
pub open spec fn sign(a: int) -> int {
    if a >= 0 {
        1
    } else {
        -1
    }
}

proof fn lemma_quotient_remainder(a: int, m: int)
    requires
        m > 0,
        -(COORD_LIMIT * m) <= a <= COORD_LIMIT * m,
    ensures
        0 <= (a - quotient(a, m) * m) * sign(a) < m,
        -COORD_LIMIT <= quotient(a, m) <= COORD_LIMIT,
{
    let t = if a >= 0 {
        a
    } else {
        -a
    };
    vstd::arithmetic::div_mod::lemma_fundamental_div_mod(t, m);
    vstd::arithmetic::div_mod::lemma_mod_bound(t, m);
    vstd::arithmetic::div_mod::lemma_div_is_ordered(t, COORD_LIMIT * m, m);
    vstd::arithmetic::div_mod::lemma_div_multiples_vanish(COORD_LIMIT as int, m);
    assert(COORD_LIMIT * m == m * COORD_LIMIT) by (nonlinear_arith);
    vstd::arithmetic::div_mod::lemma_div_pos_is_pos(t, m);
    let q = quotient(a, m);
    if a >= 0 {
        assert(a - q * m == a % m) by (nonlinear_arith)
            requires
                a == m * (a / m) + a % m,
                q == a / m,
        ;
    } else {
        assert((a - q * m) * -1 == t % m) by (nonlinear_arith)
            requires
                t == m * (t / m) + t % m,
                a == -t,
                q == -(t / m),
        ;
    }
}

/// A single leaf is sampled exactly at any budget: its sample is the plain
/// inverse-square field summed over its bodies.
pub proof fn lemma_leaf_sample_is_exact(kd: Kd, pos: Vec2, depth: int)
    requires
        kd.is_leaf_spec(),
    ensures
        kd.approx(pos, depth) == field_sum(plannet_masses(kd.bodies()), pos, None, FIELD_FACTOR as int),
{
}

/// With no budget, a split is sampled as one mass: its total mass, placed at
/// its centre of mass.
pub proof fn lemma_zero_budget_uses_center_of_mass(kd: Kd, pos: Vec2)
    requires
        !kd.is_leaf_spec(),
    ensures
        kd.approx(pos, 0) == pull_spec(
            pos,
            centroid(kd.bodies()),
            strength(total_mass(kd.bodies()), FIELD_FACTOR as int),
        ),
{
}

/// Sampling deep enough to reach every leaf gives the exact field: with a
/// budget of at least the partition's height, the approximate sample is the
/// plain inverse-square field summed over every body.
pub proof fn lemma_full_depth_is_exact(kd: Kd, pos: Vec2, depth: int)
    requires
        kd.wf(),
        depth >= kd.height(),
    ensures
        kd.approx(pos, depth) == field_sum(plannet_masses(kd.bodies()), pos, None, FIELD_FACTOR as int),
    decreases kd,
{
    match kd.inner {
        KdSplit::Node(_) => {},
        KdSplit::Partition { left, right, .. } => {
            lemma_full_depth_is_exact(*left, pos, depth - 1);
            lemma_full_depth_is_exact(*right, pos, depth - 1);
            let (lb, rb) = (left.bodies(), right.bodies());
            assert(plannet_masses(lb + rb) =~= plannet_masses(lb) + plannet_masses(rb));
            crate::field::lemma_field_sum_append(
                plannet_masses(lb),
                plannet_masses(rb),
                pos,
                None,
                FIELD_FACTOR as int,
            );
        },
    }
}

/// Passes each body of `v` through `f`, in order.
fn map_bodies<F: Fn(Plannet) -> Plannet>(v: Vec<Plannet>, f: &F) -> (r: Vec<Plannet>)
    requires
        all_wf(v@),
        forall|p: Plannet| p.point_mass().wf() ==> #[trigger] f.requires((p,)),
        forall|p: Plannet, q: Plannet| p.point_mass().wf() && #[trigger] f.ensures((p,), q) ==> q.point_mass().wf(),
    ensures
        r@.len() == v@.len(),
        all_wf(r@),
        forall|i: int| 0 <= i < v@.len() ==> f.ensures((v@[i],), #[trigger] r@[i]),
{
    let ghost orig = v@;
    let mut rest = v;
    let mut out: Vec<Plannet> = Vec::new();
    while rest.len() > 0
        invariant
            forall|p: Plannet| p.point_mass().wf() ==> #[trigger] f.requires((p,)),
            forall|p: Plannet, q: Plannet| p.point_mass().wf() && #[trigger] f.ensures((p,), q) ==> q.point_mass().wf(),
            all_wf(orig),
            out@.len() + rest@.len() == orig.len(),
            rest@ == orig.skip(out@.len() as int),
            all_wf(out@),
            forall|i: int| 0 <= i < out@.len() ==> f.ensures((orig[i],), #[trigger] out@[i]),
        decreases rest@.len(),
    {
        let ghost k = out@.len() as int;
        let p = rest.remove(0);
        assert(p == orig[k]);
        assert(orig[k].point_mass().wf());
        let q = f(p);
        out.push(q);
        assert(rest@ =~= orig.skip(out@.len() as int));
        assert(all_wf(out@)) by {
            assert forall|i: int| 0 <= i < out@.len() implies (#[trigger] out@[i]).point_mass().wf() by {
                if i < k {
                    assert(out@[i] == out@.drop_last()[i]);
                }
            }
        }
        assert forall|i: int| 0 <= i < out@.len() implies f.ensures((orig[i],), #[trigger] out@[i]) by {
            if i < k {
                assert(out@[i] == out@.drop_last()[i]);
            }
        }
    }
    out
}

impl Kd {
    /// Passes every body through `f`, keeping the shape of the partition, and
    /// brings the kept aggregates up to date. The bodies may move, so the
    /// separation at the splits is not kept.
    pub fn for_each<F: Fn(Plannet) -> Plannet>(&mut self, f: &F)
        requires
            old(self).wf(),
            forall|p: Plannet| p.point_mass().wf() ==> #[trigger] f.requires((p,)),
            forall|p: Plannet, q: Plannet| p.point_mass().wf() && #[trigger] f.ensures((p,), q) ==> q.point_mass().wf(),
        ensures
            final(self).wf(),
            final(self).bodies().len() == old(self).bodies().len(),
            final(self).is_leaf_spec() == old(self).is_leaf_spec(),
            forall|i: int|
                0 <= i < old(self).bodies().len() ==> f.ensures((old(self).bodies()[i],), #[trigger] final(self).bodies()[i]),
        decreases *old(self),
    {
        let mut inner = KdSplit::Node(Vec::new());
        std::mem::swap(&mut inner, &mut self.inner);
        match inner {
            KdSplit::Node(v) => {
                let w = map_bodies(v, f);
                *self = Kd::leaf(w);
            },
            KdSplit::Partition { x_split, split, left, right } => {
                let ghost (lb, rb) = (left.bodies(), right.bodies());
                let mut l = *left;
                let mut r = *right;
                l.for_each(f);
                r.for_each(f);
                proof {
                    assert forall|i: int| 0 <= i < lb.len() + rb.len() implies f.ensures(
                        ((lb + rb)[i],),
                        #[trigger] (l.bodies() + r.bodies())[i],
                    ) by {
                        if i < lb.len() {
                            assert((lb + rb)[i] == lb[i]);
                            assert((l.bodies() + r.bodies())[i] == l.bodies()[i]);
                        } else {
                            assert((lb + rb)[i] == rb[i - lb.len()]);
                            assert((l.bodies() + r.bodies())[i] == r.bodies()[i - lb.len()]);
                        }
                    }
                }
                *self = Kd::partition(x_split, split, l, r);
            },
        }
    }
}

} // verus!
