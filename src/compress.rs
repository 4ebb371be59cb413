use vstd::prelude::*;
use vstd::arithmetic::div_mod::{lemma_div_is_ordered, lemma_div_multiples_vanish};
use crate::centroid::{
    Centroid, copy_centroids, all_unit, wsum, sorted_by_mean, all_positive, means_within, lemma_wsum_push, lemma_wsum_take_next,
    lemma_wsum_take_le,
};

verus! {

/// Sorts points of weight one by mean; the points themselves are kept.
pub fn sort_points(v: &mut Vec<Centroid>, Ghost(lo): Ghost<int>, Ghost(hi): Ghost<int>)
    requires
        means_within(old(v)@, lo, hi),
        all_unit(old(v)@),
    ensures
        final(v)@.len() == old(v)@.len(),
        final(v)@.to_multiset() == old(v)@.to_multiset(),
        means_within(final(v)@, lo, hi),
        all_unit(final(v)@),
        sorted_by_mean(final(v)@),
{
    broadcast use vstd::seq_lib::to_multiset_update;
    let n = v.len();
    let mut i: usize = 0;
    while i < n
        invariant
            v@.len() == n,
            i <= n,
            v@.to_multiset() == old(v)@.to_multiset(),
            means_within(v@, lo, hi),
            all_unit(v@),
            forall|a: int, b: int| 0 <= a <= b < i ==> v@[a].mean <= v@[b].mean,
        decreases n - i,
    {
        let mut j: usize = i;
        while j > 0 && v[j - 1].mean > v[j].mean
            invariant
                v@.len() == n,
                j <= i < n,
                v@.to_multiset() == old(v)@.to_multiset(),
                means_within(v@, lo, hi),
                all_unit(v@),
                forall|a: int, b: int| 0 <= a <= b <= i && a != j && b != j ==> v@[a].mean <= v@[b].mean,
                forall|b: int| j < b <= i ==> v@[j as int].mean <= v@[b].mean,
            decreases j,
        {
            let x = v[j - 1];
            let y = v[j];
            let ghost s0 = v@;
            v.set(j - 1, y);
            let ghost s1 = v@;
            v.set(j, x);
            proof {
                assert(s1 == s0.update(j - 1, y));
                assert(v@ == s1.update(j as int, x));
                assert(s1[j as int] == y);
                vstd::seq_lib::to_multiset_update(s0, j - 1, y);
                vstd::seq_lib::to_multiset_update(s1, j as int, x);
                assert(s0.to_multiset().count(x) > 0) by {
                    broadcast use vstd::seq_lib::group_to_multiset_ensures;
                    assert(s0.contains(x));
                }
                assert(s0.to_multiset().insert(y).remove(x).insert(x).remove(y) =~= s0.to_multiset());
            }
            j = j - 1;
        }
        i = i + 1;
    }
}

/// Merges two mean-ordered centroid lists into one, keeping every centroid.
pub fn merge_sorted(a: &Vec<Centroid>, b: &Vec<Centroid>, Ghost(lo): Ghost<int>, Ghost(hi): Ghost<int>) -> (r: Vec<Centroid>)
    requires
        sorted_by_mean(a@),
        sorted_by_mean(b@),
        all_positive(a@),
        all_positive(b@),
        means_within(a@, lo, hi),
        means_within(b@, lo, hi),
    ensures
        r@.len() == a@.len() + b@.len(),
        r@.to_multiset() == a@.to_multiset().add(b@.to_multiset()),
        a@.len() == 0 ==> r@ == b@,
        sorted_by_mean(r@),
        all_positive(r@),
        means_within(r@, lo, hi),
        wsum(r@) == wsum(a@) + wsum(b@),
{
    broadcast use vstd::seq_lib::group_to_multiset_ensures;
    let mut r: Vec<Centroid> = Vec::new();
    let mut i: usize = 0;
    let mut j: usize = 0;
    assert(a@.take(0) =~= Seq::<Centroid>::empty());
    assert(b@.take(0) =~= Seq::<Centroid>::empty());
    assert(r@.to_multiset() =~= a@.take(0).to_multiset().add(b@.take(0).to_multiset()));
    while i < a.len() || j < b.len()
        invariant
            i <= a@.len(),
            j <= b@.len(),
            r@.len() == i + j,
            sorted_by_mean(a@),
            sorted_by_mean(b@),
            all_positive(a@),
            all_positive(b@),
            means_within(a@, lo, hi),
            means_within(b@, lo, hi),
            sorted_by_mean(r@),
            all_positive(r@),
            means_within(r@, lo, hi),
            wsum(r@) == wsum(a@.take(i as int)) + wsum(b@.take(j as int)),
            r@.to_multiset() == a@.take(i as int).to_multiset().add(b@.take(j as int).to_multiset()),
            a@.len() == 0 ==> r@ == b@.take(j as int),
            r@.len() > 0 && i < a@.len() ==> r@.last().mean <= a@[i as int].mean,
            r@.len() > 0 && j < b@.len() ==> r@.last().mean <= b@[j as int].mean,
        decreases a@.len() + b@.len() - i - j,
    {
        if j >= b.len() || (i < a.len() && a[i].mean <= b[j].mean) {
            proof {
                lemma_wsum_take_next(a@, i as int);
                lemma_wsum_push(r@, a@[i as int]);
            }
            assert(a@.take(i + 1) =~= a@.take(i as int).push(a@[i as int]));
            let ghost r0 = r@;
            proof {
                vstd::seq_lib::to_multiset_build(r0, a@[i as int]);
                vstd::seq_lib::to_multiset_build(a@.take(i as int), a@[i as int]);
            }
            r.push(a[i]);
            i = i + 1;
            assert(r@.to_multiset() =~= a@.take(i as int).to_multiset().add(b@.take(j as int).to_multiset()));
        } else {
            proof {
                lemma_wsum_take_next(b@, j as int);
                lemma_wsum_push(r@, b@[j as int]);
            }
            assert(b@.take(j + 1) =~= b@.take(j as int).push(b@[j as int]));
            let ghost r0 = r@;
            proof {
                vstd::seq_lib::to_multiset_build(r0, b@[j as int]);
                vstd::seq_lib::to_multiset_build(b@.take(j as int), b@[j as int]);
            }
            r.push(b[j]);
            j = j + 1;
            assert(r@.to_multiset() =~= a@.take(i as int).to_multiset().add(b@.take(j as int).to_multiset()));
            assert(a@.len() == 0 ==> r@ =~= b@.take(j as int));
        }
    }
    assert(a@.take(i as int) =~= a@);
    assert(b@.take(j as int) =~= b@);
    r
}

/// The cumulative weight up to which the `k`-th cluster may grow, for a
/// digest of `cap` clusters over `total` observations. The scale keeps
/// clusters small near both tails and lets them grow toward the median.
fn size_limit(k: u64, cap: u64, total: u64) -> (r: u128)
    requires
        1 <= k <= cap <= u32::MAX,
        total <= u32::MAX,
{
    let c = cap as u128;
    let kk = k as u128;
    let t = total as u128;
    assert(c * c <= 0xFFFF_FFFF_FFFF_FFFFu128 * 2) by (nonlinear_arith)
        requires c <= u32::MAX;
    assert(c * c > 0) by (nonlinear_arith)
        requires c >= 1;
    if 2 * kk >= c {
        let d = c - kk;
        assert(2 * d * d <= c * c) by (nonlinear_arith)
            requires 2 * d <= c, d >= 0;
        let num = c * c - 2 * d * d;
        assert(t * num <= 0xFFFF_FFFFu128 * (0xFFFF_FFFF_FFFF_FFFFu128 * 2)) by (nonlinear_arith)
            requires t <= 0xFFFF_FFFF, num <= 0xFFFF_FFFF_FFFF_FFFFu128 * 2, num >= 0;
        t * num / (c * c)
    } else {
        assert(2 * kk * kk <= c * c) by (nonlinear_arith)
            requires 2 * kk <= c, kk >= 0;
        let num = 2 * kk * kk;
        assert(t * num <= 0xFFFF_FFFFu128 * (0xFFFF_FFFF_FFFF_FFFFu128 * 2)) by (nonlinear_arith)
            requires t <= 0xFFFF_FFFF, num <= 0xFFFF_FFFF_FFFF_FFFFu128 * 2, num >= 0;
        t * num / (c * c)
    }
}

/// Total weight of a centroid list.
pub fn total_weight(pts: &Vec<Centroid>) -> (r: u64)
    requires
        wsum(pts@) <= u32::MAX,
    ensures
        r == wsum(pts@),
{
    let mut s: u64 = 0;
    let mut i: usize = 0;
    while i < pts.len()
        invariant
            i <= pts@.len(),
            wsum(pts@) <= u32::MAX,
            s == wsum(pts@.take(i as int)),
        decreases pts@.len() - i,
    {
        proof {
            lemma_wsum_take_next(pts@, i as int);
            lemma_wsum_take_le(pts@, i + 1);
        }
        s = s + pts[i].weight as u64;
        i = i + 1;
    }
    assert(pts@.take(i as int) =~= pts@);
    s
}

/// Compresses a mean-ordered list of weighted points into at most `cap`
/// centroids. Walking left to right, a point joins the open cluster while the
/// cumulative weight stays within the scale's limit for that cluster (or when
/// no cluster may be opened any more); otherwise the cluster is closed and
/// the point starts the next one. No weight is lost, and the result stays
/// ordered by mean. With no more points than `cap`, every point is kept as
/// it is; a run of equal values never splits.
pub fn compress(pts: &Vec<Centroid>, cap: usize, Ghost(lo): Ghost<int>, Ghost(hi): Ghost<int>) -> (r: Vec<Centroid>)
    requires
        sorted_by_mean(pts@),
        all_positive(pts@),
        means_within(pts@, lo, hi),
        wsum(pts@) <= u32::MAX,
        1 <= cap <= u32::MAX,
    ensures
        r@.len() <= cap,
        r@.len() <= pts@.len(),
        r@.len() == 0 <==> pts@.len() == 0,
        sorted_by_mean(r@),
        all_positive(r@),
        means_within(r@, lo, hi),
        wsum(r@) == wsum(pts@),
        pts@.len() <= cap ==> r@ == pts@,
        pts@.len() > cap && (forall|i: int| 0 <= i < pts@.len() ==> #[trigger] pts@[i].mean == pts@[0].mean)
            ==> r@.len() == 1,
{
    let n = pts.len();
    if n <= cap {
        return copy_centroids(pts);
    }
    let mut r: Vec<Centroid> = Vec::new();
    let total = total_weight(pts);
    let mut k: u64 = 1;
    let mut limit: u128 = size_limit(k, cap as u64, total);
    let first = pts[0];
    // the open cluster: its first and last mean, its weight, and the
    // excess of its weighted sum over `cl_lo * cw`
    let mut cl_lo: i64 = first.mean;
    let mut cl_hi: i64 = first.mean;
    let mut cw: u64 = first.weight as u64;
    let mut ex: u128 = 0;
    let mut so_far: u64 = first.weight as u64;
    proof {
        lemma_wsum_take_next(pts@, 0);
        assert(pts@.take(0) =~= Seq::<Centroid>::empty());
    }
    let mut i: usize = 1;
    while i < n
        invariant
            n == pts@.len(),
            1 <= i <= n,
            1 <= cap <= u32::MAX,
            total == wsum(pts@),
            total <= u32::MAX,
            sorted_by_mean(pts@),
            all_positive(pts@),
            means_within(pts@, lo, hi),
            k == r@.len() + 1,
            r@.len() < cap,
            r@.len() < i,
            sorted_by_mean(r@),
            all_positive(r@),
            means_within(r@, lo, hi),
            r@.len() > 0 ==> r@.last().mean <= cl_lo,
            lo <= cl_lo <= cl_hi <= hi,
            cl_hi == pts@[i - 1].mean,
            ex <= (cl_hi - cl_lo) * cw,
            0 < cw <= so_far,
            so_far == wsum(pts@.take(i as int)),
            wsum(r@) + cw == so_far,
            (forall|j: int| 0 <= j < n ==> #[trigger] pts@[j].mean == pts@[0].mean)
                ==> r@.len() == 0 && cl_lo == pts@[0].mean,
        decreases n - i,
    {
        let c = pts[i];
        proof {
            lemma_wsum_take_next(pts@, i as int);
            lemma_wsum_take_le(pts@, i + 1);
        }
        so_far = so_far + c.weight as u64;
        // a point equal to everything in the open cluster always joins it
        if so_far as u128 <= limit || r.len() + 1 >= cap || (c.mean == cl_lo && cl_lo == cl_hi) {
            let d: u128 = (c.mean as i128 - cl_lo as i128) as u128;
            let w: u128 = c.weight as u128;
            let cwu: u128 = cw as u128;
            let ghost h: int = cl_hi - cl_lo;
            assert(ex + d * w <= d * (cwu + w)) by (nonlinear_arith)
                requires ex <= h * cwu, h <= d, cwu >= 0, w >= 0;
            assert(d * (cwu + w) <= 0xFFFF_FFFF_FFFF_FFFFu128 * 0xFFFF_FFFFu128) by (nonlinear_arith)
                requires d <= 0xFFFF_FFFF_FFFF_FFFFu128, cwu + w <= 0xFFFF_FFFFu128;
            ex = ex + d * w;
            cw = cw + c.weight as u64;
            cl_hi = c.mean;
        } else {
            let cwu: u128 = cw as u128;
            let ghost h: int = cl_hi - cl_lo;
            proof {
                lemma_div_is_ordered(ex as int, h * cwu, cwu as int);
                lemma_div_multiples_vanish(h, cwu as int);
                assert(h * cwu == cwu * h) by (nonlinear_arith);
            }
            let m: i64 = (cl_lo as i128 + (ex / cwu) as i128) as i64;
            let closed = Centroid { mean: m, weight: cw as u32 };
            proof {
                lemma_wsum_push(r@, closed);
            }
            r.push(closed);
            k = k + 1;
            limit = size_limit(k, cap as u64, total);
            cl_lo = c.mean;
            cl_hi = c.mean;
            cw = c.weight as u64;
            ex = 0;
        }
        i = i + 1;
    }
    let cwu: u128 = cw as u128;
    let ghost h: int = cl_hi - cl_lo;
    proof {
        lemma_div_is_ordered(ex as int, h * cwu, cwu as int);
        lemma_div_multiples_vanish(h, cwu as int);
        assert(h * cwu == cwu * h) by (nonlinear_arith);
    }
    proof {
        assert(pts@.take(n as int) =~= pts@);
    }
    let m: i64 = (cl_lo as i128 + (ex / cwu) as i128) as i64;
    let last = Centroid { mean: m, weight: cw as u32 };
    proof {
        lemma_wsum_push(r@, last);
        assert(pts@.take(n as int) =~= pts@);
    }
    r.push(last);
    r
}

} // verus!
