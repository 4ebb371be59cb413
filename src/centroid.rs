use vstd::prelude::*;

verus! {

/// A cluster of observations: their (rounded-down) mean and how many there are.
#[derive(Clone, Copy, Debug, PartialEq, Eq, Structural)]
pub struct Centroid {
    pub mean: i64,
    pub weight: u32,
}

/// Total weight of a sequence of centroids.
pub open spec fn wsum(s: Seq<Centroid>) -> int
    decreases s.len(),
{
    if s.len() == 0 {
        0
    } else {
        wsum(s.drop_last()) + s.last().weight
    }
}

/// Centroids ordered by mean, ascending.
pub open spec fn sorted_by_mean(s: Seq<Centroid>) -> bool {
    forall|i: int, j: int| 0 <= i <= j < s.len() ==> s[i].mean <= s[j].mean
}

/// Every centroid has a positive weight.
pub open spec fn all_positive(s: Seq<Centroid>) -> bool {
    forall|i: int| 0 <= i < s.len() ==> s[i].weight > 0
}

/// Every centroid has weight one: a single observation.
pub open spec fn all_unit(s: Seq<Centroid>) -> bool {
    forall|i: int| 0 <= i < s.len() ==> #[trigger] s[i].weight == 1
}

/// Each observation as a centroid of weight one.
pub open spec fn unit_points(vals: Seq<i64>) -> Seq<Centroid> {
    vals.map_values(|v: i64| Centroid { mean: v, weight: 1 })
}

pub proof fn lemma_wsum_unit(s: Seq<Centroid>)
    requires
        all_unit(s),
    ensures
        wsum(s) == s.len(),
    decreases s.len(),
{
    if s.len() > 0 {
        lemma_wsum_unit(s.drop_last());
    }
}

/// Every mean lies in `[lo, hi]`.
pub open spec fn means_within(s: Seq<Centroid>, lo: int, hi: int) -> bool {
    forall|i: int| 0 <= i < s.len() ==> lo <= #[trigger] s[i].mean <= hi
}

/// An element-by-element copy.
pub fn copy_centroids(v: &Vec<Centroid>) -> (r: Vec<Centroid>)
    ensures
        r@ == v@,
{
    let mut r: Vec<Centroid> = Vec::new();
    let mut i: usize = 0;
    while i < v.len()
        invariant
            i <= v@.len(),
            r@ == v@.take(i as int),
        decreases v@.len() - i,
    {
        r.push(v[i]);
        i = i + 1;
        assert(r@ =~= v@.take(i as int));
    }
    assert(v@.take(i as int) =~= v@);
    r
}

pub proof fn lemma_wsum_push(s: Seq<Centroid>, c: Centroid)
    ensures
        wsum(s.push(c)) == wsum(s) + c.weight,
{
    assert(s.push(c).drop_last() =~= s);
}

pub proof fn lemma_wsum_take_next(s: Seq<Centroid>, i: int)
    requires
        0 <= i < s.len(),
    ensures
        wsum(s.take(i + 1)) == wsum(s.take(i)) + s[i].weight,
{
    assert(s.take(i + 1) =~= s.take(i).push(s[i]));
    lemma_wsum_push(s.take(i), s[i]);
}

pub proof fn lemma_wsum_nonneg(s: Seq<Centroid>)
    ensures
        wsum(s) >= 0,
    decreases s.len(),
{
    if s.len() > 0 {
        lemma_wsum_nonneg(s.drop_last());
    }
}

/// A prefix weighs no more than the whole.
pub proof fn lemma_wsum_take_le(s: Seq<Centroid>, i: int)
    requires
        0 <= i <= s.len(),
    ensures
        0 <= wsum(s.take(i)) <= wsum(s),
    decreases s.len() - i,
{
    lemma_wsum_nonneg(s.take(i));
    if i < s.len() {
        lemma_wsum_take_next(s, i);
        lemma_wsum_take_le(s, i + 1);
    } else {
        assert(s.take(i) =~= s);
    }
}

/// With positive weights, a sequence weighs at least its length.
pub proof fn lemma_wsum_ge_len(s: Seq<Centroid>)
    requires
        all_positive(s),
    ensures
        wsum(s) >= s.len(),
    decreases s.len(),
{
    if s.len() > 0 {
        lemma_wsum_ge_len(s.drop_last());
    }
}

} // verus!
