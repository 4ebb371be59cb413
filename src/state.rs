use vstd::prelude::*;
use crate::centroid::unit_points;
use crate::digest::{TDigest, MAX_CAPACITY, summary_ok, Summary, absorb, combine, seq_sum, seq_min_from, seq_max_from};

verus! {

/// Why a digest could not be made.
#[derive(Clone, Copy, Debug, PartialEq, Eq, Structural)]
pub enum TDigestError {
    /// A digest keeps between one and `MAX_CAPACITY` centroids.
    InvalidCapacity,
    /// The bytes do not hold a well-formed encoded digest.
    Malformed,
}

/// The per-group accumulator: observations not yet absorbed, and the digest.
#[derive(Clone, Debug)]
pub struct TDigestTransState {
    pub buffer: Vec<i64>,
    pub digested: TDigest,
}

/// Absorbing a batch and then one more value is absorbing the longer batch.
pub proof fn lemma_absorb_push(s: Summary, a: Seq<i64>, v: i64)
    requires
        s.count >= 0,
    ensures
        absorb(s, a.push(v)) == absorb(absorb(s, a), seq![v]),
{
    let e = Seq::<i64>::empty();
    assert(a.push(v).drop_last() =~= a);
    assert(seq![v].drop_last() =~= e);
    assert(seq![v].last() == v);
    assert(seq_sum(seq![v]) == seq_sum(e) + v);
    assert(seq_min_from(e, s.min) == s.min);
    assert(seq_max_from(e, s.max) == s.max);
    assert(seq_min_from(seq![v], s.min) == if v < s.min { v as int } else { s.min });
    if a.len() > 0 {
        assert(a.push(v)[0] == a[0]);
        let t = absorb(s, a);
        assert(seq_min_from(e, t.min) == t.min);
        assert(seq_max_from(e, t.max) == t.max);
        assert(seq_min_from(seq![v], t.min) == if v < t.min { v as int } else { t.min });
        assert(seq_max_from(seq![v], t.max) == if v > t.max { v as int } else { t.max });
    } else {
        assert(a.push(v) =~= seq![v]);
        assert(a =~= e);
    }
}

/// The figures of a state are those of a digest: zero while it is empty.
pub proof fn lemma_state_summary_ok(st: TDigestTransState)
    requires
        st.wf(),
    ensures
        summary_ok(st.summary()),
{
}

impl TDigestTransState {
    pub open spec fn wf(&self) -> bool {
        &&& self.digested.wf()
        &&& self.buffer@.len() < self.digested.max_size
        &&& self.digested.count + self.buffer@.len() <= u32::MAX
    }

    /// Count, sum, min and max of every observation pushed so far.
    pub open spec fn summary(&self) -> Summary {
        absorb(self.digested.summary(), self.buffer@)
    }

    /// How many observations the state has seen.
    pub open spec fn total(&self) -> int {
        self.digested.count + self.buffer@.len()
    }

    /// An empty state whose digest keeps at most `capacity` centroids; the
    /// capacity must lie between one and `MAX_CAPACITY`.
    pub fn new(capacity: u32) -> (r: Result<TDigestTransState, TDigestError>)
        ensures
            (capacity == 0 || capacity > MAX_CAPACITY) <==> r is Err,
            r is Err ==> r == Err::<TDigestTransState, TDigestError>(TDigestError::InvalidCapacity),
            r matches Ok(st) ==> st.wf() && st.digested.max_size == capacity && st.buffer@.len() == 0
                && st.summary() == (Summary { count: 0, sum: 0, min: 0, max: 0 }),
    {
        if capacity == 0 || capacity as usize > MAX_CAPACITY {
            return Err(TDigestError::InvalidCapacity);
        }
        Ok(TDigestTransState { buffer: Vec::new(), digested: TDigest::new_with_size(capacity as usize) })
    }

    /// Buffers one observation; once the buffer holds as many values as the
    /// digest's capacity, it is absorbed into the digest.
    pub fn push(&mut self, value: i64)
        requires
            old(self).wf(),
            old(self).total() < u32::MAX,
        ensures
            final(self).wf(),
            final(self).digested.max_size == old(self).digested.max_size,
            final(self).digested.centroids@.len() <= final(self).digested.max_size,
            final(self).summary() == absorb(old(self).summary(), seq![value]),
            final(self).total() == old(self).total() + 1,
            old(self).buffer@.len() + 1 < old(self).digested.max_size ==> {
                &&& final(self).buffer@ == old(self).buffer@.push(value)
                &&& final(self).digested == old(self).digested
            },
            old(self).buffer@.len() + 1 >= old(self).digested.max_size ==> final(self).buffer@.len() == 0,
    {
        proof {
            lemma_absorb_push(self.digested.summary(), self.buffer@, value);
        }
        self.buffer.push(value);
        if self.buffer.len() >= self.digested.max_size {
            self.digest();
        }
    }

    /// Pushes each of `values` in turn. Whatever their order, the count,
    /// sum, min and max come out the same (`lemma_absorb_order_independent`).
    pub fn push_all(&mut self, values: &Vec<i64>)
        requires
            old(self).wf(),
            old(self).total() + values@.len() <= u32::MAX,
        ensures
            final(self).wf(),
            final(self).digested.max_size == old(self).digested.max_size,
            final(self).summary() == absorb(old(self).summary(), values@),
            final(self).total() == old(self).total() + values@.len(),
    {
        let ghost start = self.summary();
        let mut i: usize = 0;
        proof {
            assert(values@.take(0) =~= Seq::<i64>::empty());
        }
        while i < values.len()
            invariant
                i <= values@.len(),
                self.wf(),
                self.digested.max_size == old(self).digested.max_size,
                self.total() == old(self).total() + i,
                old(self).total() + values@.len() <= u32::MAX,
                start == old(self).summary(),
                start.count >= 0,
                self.summary() == absorb(start, values@.take(i as int)),
            decreases values@.len() - i,
        {
            proof {
                lemma_absorb_push(start, values@.take(i as int), values@[i as int]);
                assert(values@.take(i + 1) =~= values@.take(i as int).push(values@[i as int]));
            }
            self.push(values[i]);
            i = i + 1;
        }
        proof {
            assert(values@.take(i as int) =~= values@);
        }
    }

    /// Absorbs the buffer into the digest; nothing changes when it is empty.
    pub fn digest(&mut self)
        requires
            old(self).digested.wf(),
            old(self).digested.count + old(self).buffer@.len() <= u32::MAX,
        ensures
            final(self).wf(),
            final(self).buffer@.len() == 0,
            final(self).digested.max_size == old(self).digested.max_size,
            final(self).summary() == old(self).summary(),
            final(self).total() == old(self).total(),
            old(self).buffer@.len() == 0 ==> final(self).digested == old(self).digested,
            old(self).digested.centroids@.len() + old(self).buffer@.len() <= old(self).digested.max_size ==> final(self).digested.centroids@.to_multiset()
                == old(self).digested.centroids@.to_multiset().add(unit_points(old(self).buffer@).to_multiset()),
            old(self).buffer@.len() > 0 && ({
                let x = old(self).buffer@[0];
                &&& old(self).digested.centroids@.len() + old(self).buffer@.len() > old(self).digested.max_size
                &&& forall|k: int| 0 <= k < old(self).buffer@.len() ==> #[trigger] old(self).buffer@[k] == x
                &&& (old(self).digested.count == 0 || (old(self).digested.min == x && old(self).digested.max == x))
            }) ==> final(self).digested.centroids@.len() == 1,
    {
        if self.buffer.len() == 0 {
            proof {
                broadcast use vstd::seq_lib::group_to_multiset_ensures;
                let e = vstd::multiset::Multiset::<crate::centroid::Centroid>::empty();
                assert(unit_points(self.buffer@).len() == 0);
                assert(unit_points(self.buffer@).to_multiset() =~= e);
                assert(self.digested.centroids@.to_multiset().add(e) =~= self.digested.centroids@.to_multiset());
            }
            return;
        }
        let pending = self.buffer.split_off(0);
        assert(pending@ =~= old(self).buffer@);
        self.digested = self.digested.merge_unsorted(pending);
    }

    /// The digest of everything this state has seen, with its buffer absorbed.
    pub fn flushed(&self) -> (r: TDigest)
        requires
            self.wf(),
        ensures
            r.wf(),
            r.max_size == self.digested.max_size,
            r.summary() == self.summary(),
            self.buffer@.len() == 0 ==> r.centroids@ == self.digested.centroids@,
            self.digested.centroids@.len() + self.buffer@.len() <= self.digested.max_size ==> r.centroids@.to_multiset()
                == self.digested.centroids@.to_multiset().add(unit_points(self.buffer@).to_multiset()),
            self.buffer@.len() > 0 && ({
                let x = self.buffer@[0];
                &&& self.digested.centroids@.len() + self.buffer@.len() > self.digested.max_size
                &&& forall|k: int| 0 <= k < self.buffer@.len() ==> #[trigger] self.buffer@[k] == x
                &&& (self.digested.count == 0 || (self.digested.min == x && self.digested.max == x))
            }) ==> r.centroids@.len() == 1,
    {
        let pending = self.buffer.clone();
        assert(pending@ =~= self.buffer@);
        self.digested.merge_unsorted(pending)
    }

    /// Merges two states into one with an empty buffer.
    pub fn merge(&self, other: &TDigestTransState) -> (r: TDigestTransState)
        requires
            self.wf(),
            other.wf(),
            self.total() + other.total() <= u32::MAX,
        ensures
            r.wf(),
            r.buffer@.len() == 0,
            r.digested.centroids@.len() <= r.digested.max_size,
            r.summary() == combine(self.summary(), other.summary()),
            r.digested.max_size == if self.digested.max_size >= other.digested.max_size {
                self.digested.max_size
            } else {
                other.digested.max_size
            },
    {
        let a = self.flushed();
        let b = other.flushed();
        let d = TDigest::merge_digests(&a, &b);
        TDigestTransState { buffer: Vec::new(), digested: d }
    }
}

} // verus!
