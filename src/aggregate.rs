//! The operations an aggregation host calls: transition, combine,
//! serialize, deserialize, final, and the accessors of a finished digest.

use vstd::prelude::*;
use crate::codec::{
    encode, decode, encoding, lemma_round_trip, valid_encoding, parsed_centroids, parsed_sum,
    parsed_count, parsed_min, parsed_max, parsed_max_size,
};
use crate::centroid::unit_points;
use crate::digest::{TDigest, Summary, absorb, combine};
use crate::quantile::{quantile_of, quantile_at_value_of, QUANTILE_SCALE};
use crate::state::{TDigestTransState, TDigestError};

verus! {

/// Feeds one observation to a group's state, creating the state (with room
/// for `size` centroids) on the group's first observation. A missing value
/// leaves the state as it is.
pub fn tdigest_trans(state: Option<TDigestTransState>, size: u32, value: Option<i64>) -> (r: Result<
    Option<TDigestTransState>,
    TDigestError,
>)
    requires
        state matches Some(st) ==> st.wf() && st.total() < u32::MAX,
    ensures
        value is None ==> r == Ok::<Option<TDigestTransState>, TDigestError>(state),
        value is Some && state is None ==> {
            &&& (size == 0 || size > crate::digest::MAX_CAPACITY) <==> r is Err
            &&& r is Err ==> r == Err::<Option<TDigestTransState>, TDigestError>(TDigestError::InvalidCapacity)
            &&& r matches Ok(o) ==> o matches Some(st2) && st2.wf() && st2.digested.max_size == size
                && st2.summary() == absorb((Summary { count: 0, sum: 0, min: 0, max: 0 }), seq![value->0])
            &&& (r is Ok && size > 1) ==> (r->Ok_0 matches Some(st2) && st2.buffer@ == seq![value->0]
                && st2.digested.count == 0)
        },
        value is Some && state is Some ==> (r matches Ok(o) && o matches Some(st2)
            && st2.wf() && st2.digested.max_size == state->0.digested.max_size
            && st2.summary() == absorb(state->0.summary(), seq![value->0])),
        value is Some && state is Some && state->0.buffer@.len() + 1 < state->0.digested.max_size ==> (r matches Ok(o)
            && o matches Some(st2) && st2.buffer@ == state->0.buffer@.push(value->0)
            && st2.digested == state->0.digested),
{
    let v = match value {
        None => return Ok(state),
        Some(v) => v,
    };
    let mut st = match state {
        None => match TDigestTransState::new(size) {
            Ok(s) => s,
            Err(e) => return Err(e),
        },
        Some(s) => s,
    };
    st.push(v);
    Ok(Some(st))
}

/// Combines the states of two partial aggregations of one group.
pub fn tdigest_combine(state1: Option<TDigestTransState>, state2: Option<TDigestTransState>) -> (r: Option<
    TDigestTransState,
>)
    requires
        state1 matches Some(a) ==> a.wf(),
        state2 matches Some(b) ==> b.wf(),
        state1 is Some && state2 is Some ==> state1->0.total() + state2->0.total() <= u32::MAX,
    ensures
        state1 is None ==> r == state2,
        state1 is Some && state2 is None ==> r == state1,
        state1 is Some && state2 is Some ==> (r matches Some(m) && m.wf() && m.buffer@.len() == 0
            && m.summary() == combine(state1->0.summary(), state2->0.summary())
            && m.digested.max_size == if state1->0.digested.max_size >= state2->0.digested.max_size {
                state1->0.digested.max_size
            } else {
                state2->0.digested.max_size
            }),
{
    match (state1, state2) {
        (None, s2) => s2,
        (Some(s1), None) => Some(s1),
        (Some(s1), Some(s2)) => Some(s1.merge(&s2)),
    }
}

/// Flushes the state and encodes its digest.
pub fn tdigest_serialize(state: TDigestTransState) -> (r: Vec<u8>)
    requires
        state.wf(),
    ensures
        valid_encoding(r@),
        parsed_count(r@) == state.summary().count,
        parsed_sum(r@) == state.summary().sum,
        parsed_min(r@) == state.summary().min,
        parsed_max(r@) == state.summary().max,
        parsed_max_size(r@) == state.digested.max_size,
        state.buffer@.len() == 0 ==> r@ == encoding(state.digested),
{
    let mut st = state;
    st.digest();
    proof {
        lemma_round_trip(st.digested);
        assert(st.buffer@ =~= Seq::<i64>::empty());
    }
    encode(&st.digested)
}

/// Decodes a state that `tdigest_serialize` produced.
pub fn tdigest_deserialize(bytes: &Vec<u8>) -> (r: Result<TDigestTransState, TDigestError>)
    ensures
        r is Ok <==> valid_encoding(bytes@),
        r is Err ==> r == Err::<TDigestTransState, TDigestError>(TDigestError::Malformed),
        r matches Ok(st) ==> {
            &&& st.wf()
            &&& st.buffer@.len() == 0
            &&& st.digested.centroids@ == parsed_centroids(bytes@)
            &&& st.digested.sum == parsed_sum(bytes@)
            &&& st.digested.count == parsed_count(bytes@)
            &&& st.digested.min == parsed_min(bytes@)
            &&& st.digested.max == parsed_max(bytes@)
            &&& st.digested.max_size == parsed_max_size(bytes@)
        },
{
    match decode(bytes) {
        Ok(d) => Ok(TDigestTransState { buffer: Vec::new(), digested: d }),
        Err(e) => Err(e),
    }
}

/// The finished digest of a group: the buffer is absorbed for good. A group
/// that saw no observation has no digest.
pub fn tdigest_final(state: Option<TDigestTransState>) -> (r: Option<TDigest>)
    requires
        state matches Some(st) ==> st.wf(),
    ensures
        state is None ==> r is None,
        state is Some ==> (r matches Some(d) && d.wf() && d.summary() == state->0.summary()
            && d.max_size == state->0.digested.max_size),
        state is Some && state->0.buffer@.len() == 0 ==> r->0.centroids@ == state->0.digested.centroids@,
        state is Some && state->0.digested.centroids@.len() + state->0.buffer@.len() <= state->0.digested.max_size
            ==> r->0.centroids@.to_multiset() == state->0.digested.centroids@.to_multiset().add(
            unit_points(state->0.buffer@).to_multiset()),
{
    match state {
        None => None,
        Some(st) => Some(st.flushed()),
    }
}

/// The estimated value at fraction `quantile / QUANTILE_SCALE`.
pub fn tdigest_quantile(digest: &TDigest, quantile: u64) -> (r: i64)
    requires
        digest.wf(),
        digest.count > 0,
    ensures
        r == quantile_of(*digest, quantile as int),
{
    digest.estimate_quantile(quantile)
}

/// The estimated fraction, times `QUANTILE_SCALE`, of observations below `value`.
pub fn tdigest_quantile_at_value(digest: &TDigest, value: i64) -> (r: u64)
    requires
        digest.wf(),
        digest.count > 0,
    ensures
        r == quantile_at_value_of(*digest, value as int),
        r <= QUANTILE_SCALE,
{
    digest.estimate_quantile_at_value(value)
}

pub fn tdigest_count(digest: &TDigest) -> (r: u64)
    ensures
        r == digest.count,
{
    digest.count
}

pub fn tdigest_min(digest: &TDigest) -> (r: i64)
    ensures
        r == digest.min,
{
    digest.min
}

pub fn tdigest_max(digest: &TDigest) -> (r: i64)
    ensures
        r == digest.max,
{
    digest.max
}

pub fn tdigest_sum(digest: &TDigest) -> (r: i128)
    ensures
        r == digest.sum,
{
    digest.sum
}

/// The mean of the observations, rounded down; zero for an empty digest.
pub fn tdigest_mean(digest: &TDigest) -> (r: i64)
    requires
        digest.wf(),
    ensures
        digest.count == 0 ==> r == 0,
        digest.count > 0 ==> r == digest.sum as int / digest.count as int,
{
    if digest.count == 0 {
        return 0;
    }
    let c = digest.count as i128;
    let s = digest.sum;
    if s >= 0 {
        let q = s / c;
        proof {
            vstd::arithmetic::div_mod::lemma_div_is_ordered(s as int, c * 0x7FFF_FFFF_FFFF_FFFF, c as int);
            vstd::arithmetic::div_mod::lemma_div_multiples_vanish(0x7FFF_FFFF_FFFF_FFFF, c as int);
            assert(c * 0x7FFF_FFFF_FFFF_FFFF == 0x7FFF_FFFF_FFFF_FFFF * c) by (nonlinear_arith);
            vstd::arithmetic::div_mod::lemma_div_pos_is_pos(s as int, c as int);
        }
        q as i64
    } else {
        let neg = -s;
        let up = (neg + c - 1) / c;
        proof {
            let ni = neg as int;
            let ci = c as int;
            let u = up as int;
            vstd::arithmetic::div_mod::lemma_fundamental_div_mod(ni + ci - 1, ci);
            vstd::arithmetic::div_mod::lemma_mod_pos_bound(ni + ci - 1, ci);
            assert(u == (ni + ci - 1) / ci);
            assert(u * ci <= ni + ci - 1 < u * ci + ci) by (nonlinear_arith)
                requires
                    ni + ci - 1 == ci * u + (ni + ci - 1) % ci,
                    0 <= (ni + ci - 1) % ci < ci;
            assert(ni <= 0x8000_0000_0000_0000 * ci);
            assert(u <= 0x8000_0000_0000_0000) by (nonlinear_arith)
                requires u * ci <= ni + ci - 1, ni <= 0x8000_0000_0000_0000 * ci, ci > 0;
            assert(u >= 1) by (nonlinear_arith)
                requires ni + ci - 1 < u * ci + ci, ni >= 1, ci > 0;
            let fl = (s as int) / ci;
            vstd::arithmetic::div_mod::lemma_fundamental_div_mod(s as int, ci);
            vstd::arithmetic::div_mod::lemma_mod_bound(s as int, ci);
            assert(fl == -u) by (nonlinear_arith)
                requires
                    s as int == ci * fl + (s as int) % ci,
                    0 <= (s as int) % ci < ci,
                    u * ci <= ni + ci - 1,
                    ni + ci - 1 < u * ci + ci,
                    ni == -(s as int),
                    ci > 0;
        }
        (-up) as i64
    }
}

} // verus!
