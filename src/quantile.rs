use vstd::prelude::*;
use vstd::arithmetic::div_mod::{lemma_div_is_ordered, lemma_div_multiples_vanish};
use vstd::arithmetic::mul::lemma_mul_inequality;
use crate::centroid::{wsum, lemma_wsum_take_next, lemma_wsum_take_le};
use crate::digest::TDigest;

verus! {

/// Quantiles are fixed-point fractions: `q` stands for `q / QUANTILE_SCALE`.
pub const QUANTILE_SCALE: u64 = 0x1_0000_0000;

pub open spec fn scale() -> int {
    QUANTILE_SCALE as int
}

/// Linear interpolation between `(xa, ya)` and `(xb, yb)` at `x`, rounded
/// down; the position inside the segment is first taken to `scale()` steps.
pub open spec fn seg(xa: int, ya: int, xb: int, yb: int, x: int) -> int {
    if xb <= xa {
        ya
    } else {
        ya + (yb - ya) * ((x - xa) * scale() / (xb - xa)) / scale()
    }
}

/// The piecewise-linear function through the knots `(xs[i], ys[i])`.
pub open spec fn interp(xs: Seq<int>, ys: Seq<int>, x: int) -> int
    decreases xs.len(),
{
    if xs.len() < 2 {
        ys[0]
    } else if x <= xs[1] {
        seg(xs[0], ys[0], xs[1], ys[1], x)
    } else {
        interp(xs.drop_first(), ys.drop_first(), x)
    }
}

/// The inverse of `seg`: where between `xa` and `xb` the value `v` falls.
pub open spec fn inv_seg(xa: int, ya: int, xb: int, yb: int, v: int) -> int {
    if yb <= ya {
        xa
    } else {
        xa + (xb - xa) * ((v - ya) * scale() / (yb - ya)) / scale()
    }
}

/// The inverse of `interp` over the same knots.
pub open spec fn inv_interp(xs: Seq<int>, ys: Seq<int>, v: int) -> int
    decreases xs.len(),
{
    if xs.len() < 2 {
        xs[0]
    } else if v <= ys[1] {
        inv_seg(xs[0], ys[0], xs[1], ys[1], v)
    } else {
        inv_interp(xs.drop_first(), ys.drop_first(), v)
    }
}

/// Position of the `i`-th knot, in half-observations times `scale()`: the
/// minimum sits at zero, each centroid at the middle of its weight, and the
/// maximum at the full count.
pub open spec fn knot_x(d: TDigest, i: int) -> int {
    let cs = d.centroids@;
    if i == 0 {
        0
    } else if i <= cs.len() {
        (2 * wsum(cs.take(i - 1)) + cs[i - 1].weight) * scale()
    } else {
        2 * d.count * scale()
    }
}

/// Value of the `i`-th knot: the minimum, each centroid's mean, the maximum.
pub open spec fn knot_y(d: TDigest, i: int) -> int {
    let cs = d.centroids@;
    if i == 0 {
        d.min as int
    } else if i <= cs.len() {
        cs[i - 1].mean as int
    } else {
        d.max as int
    }
}

pub open spec fn knots_x(d: TDigest) -> Seq<int> {
    Seq::new((d.centroids@.len() + 2) as nat, |i: int| knot_x(d, i))
}

pub open spec fn knots_y(d: TDigest) -> Seq<int> {
    Seq::new((d.centroids@.len() + 2) as nat, |i: int| knot_y(d, i))
}

/// The estimated value below which a fraction `q / scale()` of the
/// observations lies.
pub open spec fn quantile_of(d: TDigest, q: int) -> int {
    if q <= 0 {
        d.min as int
    } else if q >= scale() {
        d.max as int
    } else {
        interp(knots_x(d), knots_y(d), 2 * d.count * q)
    }
}

/// The estimated fraction (times `scale()`) of observations below `v`.
pub open spec fn quantile_at_value_of(d: TDigest, v: int) -> int {
    if v <= d.min {
        0
    } else if v >= d.max {
        scale()
    } else {
        inv_interp(knots_x(d), knots_y(d), v) / (2 * d.count)
    }
}

/// `(x - xa) * S / (xb - xa)` is at most `S` when `x <= xb`.
proof fn lemma_frac_le_scale(a: int, b: int)
    requires
        0 <= a <= b,
        0 < b,
    ensures
        0 <= a * scale() / b <= scale(),
{
    lemma_mul_inequality(a, b, scale());
    lemma_div_is_ordered(a * scale(), b * scale(), b);
    assert(b * scale() == scale() * b) by (nonlinear_arith);
    lemma_div_multiples_vanish(scale(), b);
    lemma_div_is_ordered(0, a * scale(), b);
    assert(0 <= a * scale()) by (nonlinear_arith)
        requires a >= 0;
}

/// `d * t / S` is at most `d` when `t <= S`.
proof fn lemma_part_le(d: int, t: int)
    requires
        0 <= d,
        0 <= t <= scale(),
    ensures
        0 <= d * t / scale() <= d,
{
    lemma_mul_inequality(t, scale(), d);
    assert(t * d == d * t && scale() * d == d * scale()) by (nonlinear_arith);
    lemma_div_is_ordered(d * t, d * scale(), scale());
    assert(d * scale() == scale() * d) by (nonlinear_arith);
    lemma_div_multiples_vanish(d, scale());
    assert(0 <= d * t) by (nonlinear_arith)
        requires d >= 0, t >= 0;
    lemma_div_is_ordered(0, d * t, scale());
}

/// Computes `seg` for `xa <= x <= xb` and `ya <= yb`.
fn seg_exec(xa: u128, ya: i64, xb: u128, yb: i64, x: u128) -> (r: i64)
    requires
        xa <= x <= xb,
        xb <= 0x4_0000_0000_0000_0000u128,
        ya <= yb,
    ensures
        r == seg(xa as int, ya as int, xb as int, yb as int, x as int),
        ya <= r <= yb,
{
    if xb <= xa {
        return ya;
    }
    let s = QUANTILE_SCALE as u128;
    assert((x - xa) * s <= 0x4_0000_0000_0000_0000u128 * 0x1_0000_0000u128) by (nonlinear_arith)
        requires x - xa <= 0x4_0000_0000_0000_0000u128, s == 0x1_0000_0000u128;
    let t = (x - xa) * s / (xb - xa);
    proof {
        lemma_frac_le_scale((x - xa) as int, (xb - xa) as int);
    }
    let dy = (yb as i128 - ya as i128) as u128;
    assert(dy * t <= 0x1_0000_0000_0000_0000u128 * 0x1_0000_0000u128) by (nonlinear_arith)
        requires dy <= 0x1_0000_0000_0000_0000u128, t <= 0x1_0000_0000u128;
    let part = dy * t / s;
    proof {
        lemma_part_le(dy as int, t as int);
    }
    (ya as i128 + part as i128) as i64
}

/// Computes `inv_seg` for `ya < v <= yb`.
fn inv_seg_exec(xa: u128, ya: i64, xb: u128, yb: i64, v: i64) -> (r: u128)
    requires
        xa <= xb <= 0x4_0000_0000_0000_0000u128,
        ya < v <= yb,
    ensures
        r == inv_seg(xa as int, ya as int, xb as int, yb as int, v as int),
        xa <= r <= xb,
{
    let s = QUANTILE_SCALE as u128;
    let dv = (v as i128 - ya as i128) as u128;
    let dy = (yb as i128 - ya as i128) as u128;
    assert(dv * s <= 0x1_0000_0000_0000_0000u128 * 0x1_0000_0000u128) by (nonlinear_arith)
        requires dv <= 0x1_0000_0000_0000_0000u128, s == 0x1_0000_0000u128;
    let f = dv * s / dy;
    proof {
        lemma_frac_le_scale(dv as int, dy as int);
    }
    let dx = xb - xa;
    assert(dx * f <= 0x4_0000_0000_0000_0000u128 * 0x1_0000_0000u128) by (nonlinear_arith)
        requires dx <= 0x4_0000_0000_0000_0000u128, f <= 0x1_0000_0000u128;
    let part = dx * f / s;
    proof {
        lemma_part_le(dx as int, f as int);
    }
    xa + part
}

impl TDigest {
    /// Estimates the value below which a fraction `q / QUANTILE_SCALE` of the
    /// observations lies: the minimum for `q == 0`, the maximum from
    /// `QUANTILE_SCALE` up, and in between the interpolation over the knots.
    pub fn estimate_quantile(&self, q: u64) -> (r: i64)
        requires
            self.wf(),
            self.count > 0,
        ensures
            r == quantile_of(*self, q as int),
            self.min <= r <= self.max,
    {
        if q == 0 {
            return self.min;
        }
        if q >= QUANTILE_SCALE {
            return self.max;
        }
        let n = self.centroids.len();
        let s = QUANTILE_SCALE as u128;
        assert(2 * (self.count as u128) * (q as u128) <= 2 * 0xFFFF_FFFFu128 * 0x1_0000_0000u128) by (nonlinear_arith)
            requires self.count <= 0xFFFF_FFFFu128, q <= 0x1_0000_0000u128;
        let x: u128 = 2 * (self.count as u128) * (q as u128);
        let ghost cs = self.centroids@;
        let ghost xs = knots_x(*self);
        let ghost ys = knots_y(*self);
        let mut xa: u128 = 0;
        let mut ya: i64 = self.min;
        let mut w: u64 = 0;
        let mut i: usize = 0;
        proof {
            assert(xs.subrange(0, n + 2) =~= xs);
            assert(ys.subrange(0, n + 2) =~= ys);
            assert(cs.take(0) =~= Seq::<crate::centroid::Centroid>::empty());
        }
        while i < n
            invariant
                self.wf(),
                self.count > 0,
                n == cs.len(),
                cs == self.centroids@,
                xs == knots_x(*self),
                ys == knots_y(*self),
                i <= n,
                s == scale(),
                0 < q < scale(),
                x == 2 * self.count * q,
                xa == knot_x(*self, i as int),
                ya == knot_y(*self, i as int),
                self.min <= ya <= self.max,
                i < n ==> ya <= cs[i as int].mean,
                w == wsum(cs.take(i as int)),
                xa <= x,
                interp(xs, ys, x as int) == interp(xs.subrange(i as int, n + 2), ys.subrange(i as int, n + 2), x as int),
            decreases n - i,
        {
            let c = self.centroids[i];
            proof {
                lemma_wsum_take_next(cs, i as int);
                lemma_wsum_take_le(cs, i + 1);
            }
            let xb = (2 * (w as u128) + c.weight as u128) * s;
            proof {
                assert(xs.subrange(i as int, n + 2)[0] == xa);
                assert(xs.subrange(i as int, n + 2)[1] == xb);
                assert(ys.subrange(i as int, n + 2)[1] == c.mean);
                assert(ys.subrange(i as int, n + 2)[0] == ya);
            }
            if x <= xb {
                return seg_exec(xa, ya, xb, c.mean, x);
            }
            proof {
                assert(xs.subrange(i as int, n + 2).drop_first() =~= xs.subrange(i + 1, n + 2));
                assert(ys.subrange(i as int, n + 2).drop_first() =~= ys.subrange(i + 1, n + 2));
            }
            xa = xb;
            ya = c.mean;
            w = w + c.weight as u64;
            i = i + 1;
        }
        let xb = 2 * (self.count as u128) * s;
        proof {
            assert(xs.subrange(n as int, n + 2)[1] == xb);
            assert(ys.subrange(n as int, n + 2)[1] == self.max);
            assert(x <= xb) by (nonlinear_arith)
                requires x == 2 * self.count * q, xb == 2 * self.count * s, q < s, self.count >= 0;
        }
        seg_exec(xa, ya, xb, self.max, x)
    }

    /// Estimates the fraction (times `QUANTILE_SCALE`) of observations below
    /// `v`: zero up to the minimum, `QUANTILE_SCALE` from the maximum on.
    pub fn estimate_quantile_at_value(&self, v: i64) -> (r: u64)
        requires
            self.wf(),
            self.count > 0,
        ensures
            r == quantile_at_value_of(*self, v as int),
            r <= QUANTILE_SCALE,
    {
        if v <= self.min {
            return 0;
        }
        if v >= self.max {
            return QUANTILE_SCALE;
        }
        let n = self.centroids.len();
        let s = QUANTILE_SCALE as u128;
        let two_n: u128 = 2 * (self.count as u128);
        assert(two_n * s <= 2 * 0xFFFF_FFFFu128 * 0x1_0000_0000u128) by (nonlinear_arith)
            requires two_n == 2 * self.count, self.count <= 0xFFFF_FFFFu128, s == 0x1_0000_0000u128;
        let top: u128 = two_n * s;
        let ghost cs = self.centroids@;
        let ghost xs = knots_x(*self);
        let ghost ys = knots_y(*self);
        let mut xa: u128 = 0;
        let mut ya: i64 = self.min;
        let mut w: u64 = 0;
        let mut i: usize = 0;
        proof {
            assert(xs.subrange(0, n + 2) =~= xs);
            assert(ys.subrange(0, n + 2) =~= ys);
            assert(cs.take(0) =~= Seq::<crate::centroid::Centroid>::empty());
            lemma_div_is_ordered(0, top as int, two_n as int);
            lemma_div_multiples_vanish(s as int, two_n as int);
        }
        let mut found: u128 = 0;
        let mut done = false;
        while i < n && !done
            invariant
                self.wf(),
                self.count > 0,
                n == cs.len(),
                cs == self.centroids@,
                xs == knots_x(*self),
                ys == knots_y(*self),
                i <= n,
                s == scale(),
                two_n == 2 * self.count,
                top == two_n * s,
                self.min < v < self.max,
                xa == knot_x(*self, i as int),
                ya == knot_y(*self, i as int),
                ya < v,
                w == wsum(cs.take(i as int)),
                xa <= top,
                xa <= 2 * w * s,
                top <= 2 * 0xFFFF_FFFFu128 * 0x1_0000_0000u128,
                done ==> found <= top && found == inv_interp(xs, ys, v as int),
                !done ==> inv_interp(xs, ys, v as int) == inv_interp(xs.subrange(i as int, n + 2), ys.subrange(i as int, n + 2), v as int),
            decreases n - i + (if done { 0int } else { 1int }),
        {
            let c = self.centroids[i];
            proof {
                lemma_wsum_take_next(cs, i as int);
                lemma_wsum_take_le(cs, i + 1);
            }
            let xb = (2 * (w as u128) + c.weight as u128) * s;
            proof {
                assert(xs.subrange(i as int, n + 2)[0] == xa);
                assert(xs.subrange(i as int, n + 2)[1] == xb);
                assert(ys.subrange(i as int, n + 2)[1] == c.mean);
                assert(ys.subrange(i as int, n + 2)[0] == ya);
                assert(xb <= top) by (nonlinear_arith)
                    requires xb == (2 * w + c.weight) * s, w + c.weight <= self.count, top == 2 * self.count * s, s > 0;
                assert(2 * w * s <= xb && xb <= 2 * (w + c.weight) * s) by (nonlinear_arith)
                    requires xb == (2 * w + c.weight) * s, c.weight >= 0, s > 0;
            }
            if v <= c.mean {
                found = inv_seg_exec(xa, ya, xb, c.mean, v);
                done = true;
            } else {
                proof {
                    assert(xs.subrange(i as int, n + 2).drop_first() =~= xs.subrange(i + 1, n + 2));
                    assert(ys.subrange(i as int, n + 2).drop_first() =~= ys.subrange(i + 1, n + 2));
                }
                xa = xb;
                ya = c.mean;
                w = w + c.weight as u64;
                i = i + 1;
            }
        }
        if !done {
            proof {
                assert(xs.subrange(n as int, n + 2)[1] == top);
                assert(ys.subrange(n as int, n + 2)[1] == self.max);
            }
            found = inv_seg_exec(xa, ya, top, self.max, v);
        }
        proof {
            lemma_div_is_ordered(found as int, top as int, two_n as int);
            assert(top == s * two_n) by (nonlinear_arith)
                requires top == two_n * s;
        }
        (found / two_n) as u64
    }
}

pub open spec fn strictly_increasing(xs: Seq<int>) -> bool {
    forall|i: int, j: int| 0 <= i < j < xs.len() ==> xs[i] < xs[j]
}

pub open spec fn nondecreasing(ys: Seq<int>) -> bool {
    forall|i: int, j: int| 0 <= i <= j < ys.len() ==> ys[i] <= ys[j]
}

proof fn lemma_seg_mono(xa: int, ya: int, xb: int, yb: int, x1: int, x2: int)
    requires
        xa < xb,
        ya <= yb,
        xa <= x1 <= x2 <= xb,
    ensures
        ya <= seg(xa, ya, xb, yb, x1) <= seg(xa, ya, xb, yb, x2) <= yb,
{
    let d = xb - xa;
    lemma_mul_inequality(x1 - xa, x2 - xa, scale());
    lemma_div_is_ordered((x1 - xa) * scale(), (x2 - xa) * scale(), d);
    lemma_frac_le_scale(x1 - xa, d);
    lemma_frac_le_scale(x2 - xa, d);
    let t1 = (x1 - xa) * scale() / d;
    let t2 = (x2 - xa) * scale() / d;
    lemma_mul_inequality(t1, t2, yb - ya);
    assert(t1 * (yb - ya) == (yb - ya) * t1 && t2 * (yb - ya) == (yb - ya) * t2) by (nonlinear_arith);
    lemma_div_is_ordered((yb - ya) * t1, (yb - ya) * t2, scale());
    lemma_part_le(yb - ya, t1);
    lemma_part_le(yb - ya, t2);
}

proof fn lemma_interp_bounds(xs: Seq<int>, ys: Seq<int>, x: int)
    requires
        xs.len() == ys.len() >= 2,
        strictly_increasing(xs),
        nondecreasing(ys),
        xs[0] <= x <= xs.last(),
    ensures
        ys[0] <= interp(xs, ys, x) <= ys.last(),
    decreases xs.len(),
{
    if x <= xs[1] {
        lemma_seg_mono(xs[0], ys[0], xs[1], ys[1], x, x);
    } else {
        lemma_interp_bounds(xs.drop_first(), ys.drop_first(), x);
    }
}

proof fn lemma_interp_mono(xs: Seq<int>, ys: Seq<int>, x1: int, x2: int)
    requires
        xs.len() == ys.len() >= 2,
        strictly_increasing(xs),
        nondecreasing(ys),
        xs[0] <= x1 <= x2 <= xs.last(),
    ensures
        interp(xs, ys, x1) <= interp(xs, ys, x2),
    decreases xs.len(),
{
    if x2 <= xs[1] {
        lemma_seg_mono(xs[0], ys[0], xs[1], ys[1], x1, x2);
    } else if x1 <= xs[1] {
        lemma_seg_mono(xs[0], ys[0], xs[1], ys[1], x1, x1);
        lemma_interp_bounds(xs.drop_first(), ys.drop_first(), x2);
    } else {
        lemma_interp_mono(xs.drop_first(), ys.drop_first(), x1, x2);
    }
}

proof fn lemma_prefix_mono(d: TDigest, i: int, j: int)
    requires
        0 <= i <= j <= d.centroids@.len(),
    ensures
        wsum(d.centroids@.take(i)) <= wsum(d.centroids@.take(j)),
{
    let cs = d.centroids@;
    lemma_wsum_take_le(cs.take(j), i);
    assert(cs.take(j).take(i) =~= cs.take(i));
}

/// Knot `i` (a centroid) sits strictly inside the weight of its centroid.
proof fn lemma_knot_x_inside(d: TDigest, i: int)
    requires
        d.wf(),
        1 <= i <= d.centroids@.len(),
    ensures
        2 * wsum(d.centroids@.take(i - 1)) * scale() < knot_x(d, i) < 2 * wsum(d.centroids@.take(i)) * scale(),
{
    let cs = d.centroids@;
    lemma_wsum_take_next(cs, i - 1);
    let a = wsum(cs.take(i - 1));
    let w = cs[i - 1].weight as int;
    assert(w > 0);
    assert(2 * a * scale() < (2 * a + w) * scale() < 2 * (a + w) * scale()) by (nonlinear_arith)
        requires w > 0, scale() > 0;
}

/// The knots of a well-formed, non-empty digest rise strictly in position
/// and never fall in value.
proof fn lemma_knots_ordered(d: TDigest)
    requires
        d.wf(),
        d.count > 0,
    ensures
        strictly_increasing(knots_x(d)),
        nondecreasing(knots_y(d)),
        knots_x(d).len() == knots_y(d).len() >= 2,
{
    let cs = d.centroids@;
    let n = cs.len() as int;
    assert(cs.take(n) =~= cs);
    assert forall|i: int, j: int| 0 <= i < j < n + 2 implies knot_x(d, i) < knot_x(d, j) by {
        if j <= n {
            lemma_knot_x_inside(d, j);
            lemma_wsum_take_le(cs, j - 1);
            if i >= 1 {
                lemma_knot_x_inside(d, i);
                lemma_prefix_mono(d, i, j - 1);
                assert(2 * wsum(cs.take(i)) * scale() <= 2 * wsum(cs.take(j - 1)) * scale()) by (nonlinear_arith)
                    requires wsum(cs.take(i)) <= wsum(cs.take(j - 1)), scale() > 0;
            } else {
                assert(0 <= 2 * wsum(cs.take(j - 1)) * scale()) by (nonlinear_arith)
                    requires wsum(cs.take(j - 1)) >= 0, scale() > 0;
            }
        } else {
            if i >= 1 {
                lemma_knot_x_inside(d, i);
                lemma_prefix_mono(d, i, n);
                assert(2 * wsum(cs.take(i)) * scale() <= 2 * d.count * scale()) by (nonlinear_arith)
                    requires wsum(cs.take(i)) <= d.count, scale() > 0;
            } else {
                assert(0 < 2 * d.count * scale()) by (nonlinear_arith)
                    requires d.count > 0, scale() > 0;
            }
        }
    }
    assert forall|i: int, j: int| 0 <= i <= j < n + 2 implies knot_y(d, i) <= knot_y(d, j) by {
        if i >= 1 && i <= n {
            assert(d.min <= cs[i - 1].mean <= d.max);
        }
        if j >= 1 && j <= n {
            assert(d.min <= cs[j - 1].mean <= d.max);
        }
    }
}

/// The quantile estimate never decreases as the requested fraction grows.
pub proof fn lemma_quantile_monotone(d: TDigest, q1: int, q2: int)
    requires
        d.wf(),
        d.count > 0,
        q1 <= q2,
    ensures
        quantile_of(d, q1) <= quantile_of(d, q2),
{
    lemma_knots_ordered(d);
    let xs = knots_x(d);
    let ys = knots_y(d);
    let n = d.centroids@.len() as int;
    assert(xs[0] == 0 && xs.last() == 2 * d.count * scale());
    assert(ys[0] == d.min && ys.last() == d.max);
    if 0 < q1 && q1 < scale() {
        assert(0 <= 2 * d.count * q1 <= 2 * d.count * scale()) by (nonlinear_arith)
            requires 0 < q1 < scale(), d.count > 0;
        lemma_interp_bounds(xs, ys, 2 * d.count * q1);
    }
    if 0 < q2 && q2 < scale() {
        assert(0 <= 2 * d.count * q2 <= 2 * d.count * scale()) by (nonlinear_arith)
            requires 0 < q2 < scale(), d.count > 0;
        lemma_interp_bounds(xs, ys, 2 * d.count * q2);
    }
    if 0 < q1 && q2 < scale() {
        assert(2 * d.count * q1 <= 2 * d.count * q2) by (nonlinear_arith)
            requires q1 <= q2, d.count > 0;
        lemma_interp_mono(xs, ys, 2 * d.count * q1, 2 * d.count * q2);
    }
}

/// The estimates are exact at the ends: fraction zero gives the minimum, the
/// whole gives the maximum; the minimum lies at fraction zero and, when the
/// observations are not all equal, the maximum at the whole.
pub proof fn lemma_quantile_boundaries(d: TDigest)
    requires
        d.wf(),
        d.count > 0,
    ensures
        quantile_of(d, 0) == d.min,
        quantile_of(d, scale()) == d.max,
        quantile_at_value_of(d, d.min as int) == 0,
        d.min < d.max ==> quantile_at_value_of(d, d.max as int) == scale(),
{
}

} // verus!
