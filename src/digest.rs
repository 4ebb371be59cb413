use vstd::prelude::*;
use crate::centroid::{
    Centroid, wsum, sorted_by_mean, all_positive, means_within, lemma_wsum_ge_len, all_unit, unit_points,
    lemma_wsum_unit,
};
use crate::compress::{sort_points, merge_sorted, compress};

verus! {

/// Sum of a sequence of observations.
pub open spec fn seq_sum(s: Seq<i64>) -> int
    decreases s.len(),
{
    if s.len() == 0 {
        0
    } else {
        seq_sum(s.drop_last()) + s.last()
    }
}

/// The least of `m` and the elements of `s`.
pub open spec fn seq_min_from(s: Seq<i64>, m: int) -> int
    decreases s.len(),
{
    if s.len() == 0 {
        m
    } else {
        let p = seq_min_from(s.drop_last(), m);
        if s.last() < p { s.last() as int } else { p }
    }
}

/// The greatest of `m` and the elements of `s`.
pub open spec fn seq_max_from(s: Seq<i64>, m: int) -> int
    decreases s.len(),
{
    if s.len() == 0 {
        m
    } else {
        let p = seq_max_from(s.drop_last(), m);
        if s.last() > p { s.last() as int } else { p }
    }
}

/// The summary statistics of a digest: count, sum, min and max.
/// An empty digest has all four at zero.
pub struct Summary {
    pub count: int,
    pub sum: int,
    pub min: int,
    pub max: int,
}

/// Summary after absorbing the observations `vals`.
pub open spec fn absorb(s: Summary, vals: Seq<i64>) -> Summary {
    if vals.len() == 0 {
        s
    } else {
        let m0 = if s.count == 0 { vals[0] as int } else { s.min };
        let x0 = if s.count == 0 { vals[0] as int } else { s.max };
        Summary {
            count: s.count + vals.len(),
            sum: s.sum + seq_sum(vals),
            min: seq_min_from(vals, m0),
            max: seq_max_from(vals, x0),
        }
    }
}

proof fn lemma_remove_one(s: Seq<i64>, j: int, m1: int, m2: int)
    requires
        0 <= j < s.len(),
    ensures
        seq_sum(s) == seq_sum(s.remove(j)) + s[j],
        seq_min_from(s, m1) == if s[j] < seq_min_from(s.remove(j), m1) { s[j] as int } else { seq_min_from(s.remove(j), m1) },
        seq_max_from(s, m2) == if s[j] > seq_max_from(s.remove(j), m2) { s[j] as int } else { seq_max_from(s.remove(j), m2) },
    decreases s.len(),
{
    if j == s.len() - 1 {
        assert(s.remove(j) =~= s.drop_last());
    } else {
        let r = s.remove(j);
        assert(r.drop_last() =~= s.drop_last().remove(j));
        assert(r.last() == s.last());
        lemma_remove_one(s.drop_last(), j, m1, m2);
    }
}

/// Sum, least and greatest element do not depend on the order of a sequence.
proof fn lemma_permutation(a: Seq<i64>, b: Seq<i64>, m1: int, m2: int)
    requires
        a.to_multiset() == b.to_multiset(),
    ensures
        seq_sum(a) == seq_sum(b),
        seq_min_from(a, m1) == seq_min_from(b, m1),
        seq_max_from(a, m2) == seq_max_from(b, m2),
    decreases a.len(),
{
    broadcast use vstd::seq_lib::group_to_multiset_ensures;
    if a.len() == 0 {
        assert(b.to_multiset().len() == 0);
        assert(b =~= Seq::<i64>::empty());
        assert(a =~= Seq::<i64>::empty());
    } else {
        let v = a.last();
        let init = a.drop_last();
        assert(init.push(v) =~= a);
        assert(a.to_multiset() =~= init.to_multiset().insert(v));
        assert(b.to_multiset().count(v) > 0);
        assert(b.contains(v));
        let j = choose|j: int| 0 <= j < b.len() && b[j] == v;
        assert(b.remove(j).to_multiset() =~= b.to_multiset().remove(v));
        assert(init.to_multiset() =~= init.to_multiset().insert(v).remove(v));
        lemma_permutation(init, b.remove(j), m1, m2);
        lemma_remove_one(b, j, m1, m2);
    }
}

/// `seq_min_from(s, m)` is at most `m` and every element, and is `m` or an element.
proof fn lemma_min_from_is_least(s: Seq<i64>, m: int)
    ensures
        seq_min_from(s, m) <= m,
        forall|i: int| 0 <= i < s.len() ==> seq_min_from(s, m) <= s[i],
        seq_min_from(s, m) == m || exists|i: int| 0 <= i < s.len() && s[i] == seq_min_from(s, m),
        seq_max_from(s, m) >= m,
        forall|i: int| 0 <= i < s.len() ==> seq_max_from(s, m) >= s[i],
        seq_max_from(s, m) == m || exists|i: int| 0 <= i < s.len() && s[i] == seq_max_from(s, m),
    decreases s.len(),
{
    if s.len() > 0 {
        let init = s.drop_last();
        lemma_min_from_is_least(init, m);
        assert forall|i: int| 0 <= i < s.len() - 1 implies s[i] == init[i] by {}
        if seq_min_from(init, m) != m && s.last() >= seq_min_from(init, m) {
            let i = choose|i: int| 0 <= i < init.len() && init[i] == seq_min_from(init, m);
            assert(s[i] == seq_min_from(s, m));
        }
        if seq_max_from(init, m) != m && s.last() <= seq_max_from(init, m) {
            let i = choose|i: int| 0 <= i < init.len() && init[i] == seq_max_from(init, m);
            assert(s[i] == seq_max_from(s, m));
        }
    }
}

/// Starting the fold from any element of `s` gives the same result.
proof fn lemma_start_from_element(s: Seq<i64>, i: int, k: int)
    requires
        0 <= i < s.len(),
        0 <= k < s.len(),
    ensures
        seq_min_from(s, s[i] as int) == seq_min_from(s, s[k] as int),
        seq_max_from(s, s[i] as int) == seq_max_from(s, s[k] as int),
{
    lemma_min_from_is_least(s, s[i] as int);
    lemma_min_from_is_least(s, s[k] as int);
}

/// Absorbing the same observations in any order gives the same count, sum,
/// min and max.
pub proof fn lemma_absorb_order_independent(s: Summary, a: Seq<i64>, b: Seq<i64>)
    requires
        a.to_multiset() == b.to_multiset(),
    ensures
        absorb(s, a) == absorb(s, b),
{
    broadcast use vstd::seq_lib::group_to_multiset_ensures;
    assert(a.len() == a.to_multiset().len());
    assert(b.len() == b.to_multiset().len());
    if a.len() > 0 {
        lemma_permutation(a, b, s.min, s.max);
        lemma_permutation(a, b, a[0] as int, a[0] as int);
        assert(a.contains(a[0]));
        assert(a.to_multiset().count(a[0]) > 0);
        assert(b.contains(a[0]));
        let k = choose|k: int| 0 <= k < b.len() && b[k] == a[0];
        lemma_start_from_element(b, k, 0);
    }
}

/// The summary of a digest or state: an empty one is zero throughout.
pub open spec fn summary_ok(s: Summary) -> bool {
    s.count >= 0 && (s.count == 0 ==> s.sum == 0 && s.min == 0 && s.max == 0)
}

/// Merging digests is associative and commutative in count, sum, min and
/// max: any grouping and any order of three digests gives the same figures.
pub proof fn lemma_combine_laws(a: Summary, b: Summary, c: Summary)
    requires
        summary_ok(a),
        summary_ok(b),
        summary_ok(c),
    ensures
        combine(a, b) == combine(b, a),
        combine(combine(a, b), c) == combine(a, combine(b, c)),
        combine(combine(a, b), c) == combine(combine(a, c), b),
        summary_ok(combine(a, b)),
{
}

/// The most centroids a digest may be asked to keep. The encoding holds
/// its total length, `44 + 12 * k` bytes for `k` centroids, in four bytes;
/// this bound keeps that length below `u32::MAX`.
pub const MAX_CAPACITY: usize = 0x1000_0000;

/// The invariant of a digest, over its fields.
pub open spec fn shape_wf(cs: Seq<Centroid>, sum: int, count: int, min: int, max: int, max_size: int) -> bool {
    &&& 1 <= max_size <= MAX_CAPACITY
    &&& cs.len() <= max_size
    &&& sorted_by_mean(cs)
    &&& all_positive(cs)
    &&& wsum(cs) == count
    &&& count <= u32::MAX
    &&& (count == 0 <==> cs.len() == 0)
    &&& (count == 0 ==> min == 0 && max == 0)
    &&& (count > 0 ==> min <= max && means_within(cs, min, max))
    &&& -(count * 0x8000_0000_0000_0000) <= sum <= count * 0x7FFF_FFFF_FFFF_FFFF
}

/// Summary of the union of two digests.
pub open spec fn combine(a: Summary, b: Summary) -> Summary {
    if a.count == 0 {
        b
    } else if b.count == 0 {
        a
    } else {
        Summary {
            count: a.count + b.count,
            sum: a.sum + b.sum,
            min: if a.min <= b.min { a.min } else { b.min },
            max: if a.max >= b.max { a.max } else { b.max },
        }
    }
}

/// A compressed sketch of a distribution: centroids ordered by mean, and the
/// exact count, sum, min and max of the observations it has absorbed.
#[derive(Clone, Debug)]
pub struct TDigest {
    pub centroids: Vec<Centroid>,
    pub sum: i128,
    pub count: u64,
    pub min: i64,
    pub max: i64,
    pub max_size: usize,
}

impl TDigest {
    pub open spec fn summary(&self) -> Summary {
        Summary { count: self.count as int, sum: self.sum as int, min: self.min as int, max: self.max as int }
    }

    pub open spec fn wf(&self) -> bool {
        shape_wf(self.centroids@, self.sum as int, self.count as int, self.min as int, self.max as int, self.max_size as int)
    }

    /// Checks the digest's invariant.
    pub fn is_wf(&self) -> (r: bool)
        ensures
            r == self.wf(),
    {
        let n = self.centroids.len();
        if self.max_size < 1 || self.max_size > MAX_CAPACITY || n > self.max_size || self.count > 0xFFFF_FFFF {
            return false;
        }
        if (self.count == 0) != (n == 0) {
            return false;
        }
        if self.count == 0 {
            if self.min != 0 || self.max != 0 {
                return false;
            }
        } else if self.min > self.max {
            return false;
        }
        let c = self.count as i128;
        if self.sum < -(c * 0x8000_0000_0000_0000) || self.sum > c * 0x7FFF_FFFF_FFFF_FFFF {
            return false;
        }
        let ghost cs = self.centroids@;
        let mut w: u64 = 0;
        let mut i: usize = 0;
        while i < n
            invariant
                n == cs.len(),
                cs == self.centroids@,
                i <= n,
                n <= MAX_CAPACITY,
                self.count <= 0xFFFF_FFFF,
                self.count == 0 <==> n == 0,
                w == wsum(cs.take(i as int)),
                w <= self.count,
                sorted_by_mean(cs.take(i as int)),
                all_positive(cs.take(i as int)),
                means_within(cs.take(i as int), self.min as int, self.max as int),
            decreases n - i,
        {
            let ce = self.centroids[i];
            if ce.weight == 0 || ce.mean < self.min || ce.mean > self.max {
                proof {
                    assert(cs[i as int] == ce);
                }
                return false;
            }
            if i > 0 && self.centroids[i - 1].mean > ce.mean {
                return false;
            }
            proof {
                crate::centroid::lemma_wsum_take_next(cs, i as int);
                assert(cs.take(i + 1) =~= cs.take(i as int).push(ce));
            }
            if w + ce.weight as u64 > self.count {
                proof {
                    crate::centroid::lemma_wsum_take_le(cs, i + 1);
                }
                return false;
            }
            w = w + ce.weight as u64;
            i = i + 1;
        }
        proof {
            assert(cs.take(n as int) =~= cs);
        }
        w == self.count
    }

    /// An empty digest that keeps at most `max_size` centroids.
    pub fn new_with_size(max_size: usize) -> (r: TDigest)
        requires
            1 <= max_size <= MAX_CAPACITY,
        ensures
            r.wf(),
            r.max_size == max_size,
            r.count == 0,
            r.summary() == (Summary { count: 0, sum: 0, min: 0, max: 0 }),
    {
        TDigest { centroids: Vec::new(), sum: 0, count: 0, min: 0, max: 0, max_size }
    }

    /// Absorbs a batch of observations: they join the centroids as points of
    /// weight one, and the whole is compressed again.
    pub fn merge_unsorted(&self, values: Vec<i64>) -> (r: TDigest)
        requires
            self.wf(),
            self.count + values@.len() <= u32::MAX,
        ensures
            r.wf(),
            r.max_size == self.max_size,
            r.summary() == absorb(self.summary(), values@),
            values@.len() == 0 ==> r.centroids@ == self.centroids@,
            self.centroids@.len() + values@.len() <= self.max_size ==> r.centroids@.to_multiset()
                == self.centroids@.to_multiset().add(unit_points(values@).to_multiset()),
            values@.len() > 0 && ({
                let x = values@[0];
                &&& self.centroids@.len() + values@.len() > self.max_size
                &&& forall|k: int| 0 <= k < values@.len() ==> #[trigger] values@[k] == x
                &&& (self.count == 0 || (self.min == x && self.max == x))
            }) ==> r.centroids@.len() == 1,
    {
        let n = values.len();
        if n == 0 {
            proof {
                broadcast use vstd::seq_lib::group_to_multiset_ensures;
                assert(unit_points(values@).len() == 0);
                assert(unit_points(values@).to_multiset() =~= vstd::multiset::Multiset::<Centroid>::empty());
                assert(self.centroids@.to_multiset().add(vstd::multiset::Multiset::<Centroid>::empty()) =~= self.centroids@.to_multiset());
            }
            return self.clone_digest();
        }
        let mut sum: i128 = self.sum;
        let mut mn: i64 = if self.count == 0 { values[0] } else { self.min };
        let mut mx: i64 = if self.count == 0 { values[0] } else { self.max };
        let ghost m0: int = mn as int;
        let ghost x0: int = mx as int;
        let mut i: usize = 0;
        while i < n
            invariant
                n == values@.len(),
                i <= n,
                self.wf(),
                self.count + n <= u32::MAX,
                sum == self.sum + seq_sum(values@.take(i as int)),
                -((self.count + i) * 0x8000_0000_0000_0000) <= sum <= (self.count + i) * 0x7FFF_FFFF_FFFF_FFFF,
                mn == seq_min_from(values@.take(i as int), m0),
                mx == seq_max_from(values@.take(i as int), x0),
                mn <= m0, x0 <= mx,
                forall|k: int| 0 <= k < i ==> mn <= #[trigger] values@[k] <= mx,
                ((forall|k: int| 0 <= k < n ==> #[trigger] values@[k] == values@[0])
                    && (self.count == 0 || (self.min == values@[0] && self.max == values@[0])))
                    ==> mn == values@[0] && mx == values@[0],
            decreases n - i,
        {
            let v = values[i];
            assert(values@.take(i + 1).drop_last() =~= values@.take(i as int));
            sum = sum + v as i128;
            if v < mn {
                mn = v;
            }
            if v > mx {
                mx = v;
            }
            i = i + 1;
        }
        assert(values@.take(n as int) =~= values@);
        let mut pts: Vec<Centroid> = Vec::new();
        let mut j: usize = 0;
        while j < n
            invariant
                n == values@.len(),
                j <= n,
                forall|k: int| 0 <= k < n ==> mn <= #[trigger] values@[k] <= mx,
                pts@ == unit_points(values@.take(j as int)),
            decreases n - j,
        {
            pts.push(Centroid { mean: values[j], weight: 1 });
            j = j + 1;
            assert(pts@ =~= unit_points(values@.take(j as int)));
        }
        assert(values@.take(n as int) =~= values@);
        assert(means_within(pts@, mn as int, mx as int));
        let ghost unsorted = pts@;
        sort_points(&mut pts, Ghost(mn as int), Ghost(mx as int));
        proof {
            lemma_wsum_unit(pts@);
        }
        assert(means_within(self.centroids@, mn as int, mx as int));
        let merged = merge_sorted(&self.centroids, &pts, Ghost(mn as int), Ghost(mx as int));
        proof {
            if mn == mx {
                assert forall|k: int| 0 <= k < merged@.len() implies #[trigger] merged@[k].mean == merged@[0].mean by {}
            }
        }
        let cents = compress(&merged, self.max_size, Ghost(mn as int), Ghost(mx as int));
        proof {
            assert(unit_points(values@).to_multiset() == unsorted.to_multiset());
        }
        let count = self.count + n as u64;
        proof {
            lemma_wsum_ge_len(cents@);
        }
        TDigest { centroids: cents, sum, count, min: mn, max: mx, max_size: self.max_size }
    }

    /// A copy of this digest.
    pub fn clone_digest(&self) -> (r: TDigest)
        ensures
            r.centroids@ == self.centroids@,
            r.sum == self.sum,
            r.count == self.count,
            r.min == self.min,
            r.max == self.max,
            r.max_size == self.max_size,
    {
        let cents = crate::centroid::copy_centroids(&self.centroids);
        TDigest {
            centroids: cents,
            sum: self.sum,
            count: self.count,
            min: self.min,
            max: self.max,
            max_size: self.max_size,
        }
    }

    /// Merges two digests into one that keeps at most as many centroids as
    /// the larger of the two allows.
    pub fn merge_digests(a: &TDigest, b: &TDigest) -> (r: TDigest)
        requires
            a.wf(),
            b.wf(),
            a.count + b.count <= u32::MAX,
        ensures
            r.wf(),
            r.max_size == if a.max_size >= b.max_size { a.max_size } else { b.max_size },
            r.summary() == combine(a.summary(), b.summary()),
            a.centroids@.len() + b.centroids@.len() <= r.max_size ==> r.centroids@.to_multiset()
                == a.centroids@.to_multiset().add(b.centroids@.to_multiset()),
            a.centroids@.len() + b.centroids@.len() > r.max_size && r.min == r.max ==> r.centroids@.len() == 1,
    {
        let cap = if a.max_size >= b.max_size { a.max_size } else { b.max_size };
        let (mn, mx) = if a.count == 0 {
            (b.min, b.max)
        } else if b.count == 0 {
            (a.min, a.max)
        } else {
            (if a.min <= b.min { a.min } else { b.min }, if a.max >= b.max { a.max } else { b.max })
        };
        let merged = merge_sorted(&a.centroids, &b.centroids, Ghost(mn as int), Ghost(mx as int));
        proof {
            if mn == mx {
                assert forall|k: int| 0 <= k < merged@.len() implies #[trigger] merged@[k].mean == merged@[0].mean by {}
            }
        }
        let cents = compress(&merged, cap, Ghost(mn as int), Ghost(mx as int));
        proof {
            lemma_wsum_ge_len(cents@);
        }
        TDigest { centroids: cents, sum: a.sum + b.sum, count: a.count + b.count, min: mn, max: mx, max_size: cap }
    }
}

} // verus!
