use vstd::prelude::*;
use vstd::arithmetic::div_mod::lemma_fundamental_div_mod;
use crate::centroid::Centroid;
use crate::digest::{TDigest, shape_wf};
use crate::state::TDigestError;

verus! {

pub open spec fn pow256(n: nat) -> nat
    decreases n,
{
    if n == 0 {
        1
    } else {
        256 * pow256((n - 1) as nat)
    }
}

/// The `n` low bytes of `x`, least significant first.
pub open spec fn le_bytes(x: nat, n: nat) -> Seq<u8>
    decreases n,
{
    if n == 0 {
        Seq::empty()
    } else {
        seq![(x % 256) as u8] + le_bytes(x / 256, (n - 1) as nat)
    }
}

/// The number whose bytes, least significant first, are `b`.
pub open spec fn le_value(b: Seq<u8>) -> nat
    decreases b.len(),
{
    if b.len() == 0 {
        0
    } else {
        (b[0] + 256 * le_value(b.drop_first())) as nat
    }
}

pub proof fn lemma_le_bytes_len(x: nat, n: nat)
    ensures
        le_bytes(x, n).len() == n,
    decreases n,
{
    if n > 0 {
        lemma_le_bytes_len(x / 256, (n - 1) as nat);
    }
}

/// Reading back the bytes of a number that fits gives the number.
pub proof fn lemma_le_round_trip(x: nat, n: nat)
    requires
        x < pow256(n),
    ensures
        le_value(le_bytes(x, n)) == x,
    decreases n,
{
    if n > 0 {
        let rest = le_bytes(x / 256, (n - 1) as nat);
        assert(x / 256 < pow256((n - 1) as nat));
        lemma_le_round_trip(x / 256, (n - 1) as nat);
        assert((seq![(x % 256) as u8] + rest).drop_first() =~= rest);
    }
}

proof fn lemma_le_value_bound(b: Seq<u8>)
    ensures
        le_value(b) < pow256(b.len()),
    decreases b.len(),
{
    if b.len() > 0 {
        lemma_le_value_bound(b.drop_first());
    }
}

proof fn lemma_pow256_facts()
    ensures
        pow256(4) == 0x1_0000_0000,
        pow256(8) == 0x1_0000_0000_0000_0000,
        pow256(16) == 0x1_0000_0000_0000_0000_0000_0000_0000_0000,
{
    reveal_with_fuel(pow256, 17);
}

/// Appends the `n` low bytes of `x`, least significant first.
fn put_uint(out: &mut Vec<u8>, x: u128, n: usize)
    requires
        n <= 16,
        x < pow256(n as nat),
    ensures
        final(out)@ == old(out)@ + le_bytes(x as nat, n as nat),
{
    let mut cur = x;
    let mut i: usize = 0;
    while i < n
        invariant
            i <= n,
            out@ + le_bytes(cur as nat, (n - i) as nat) == old(out)@ + le_bytes(x as nat, n as nat),
        decreases n - i,
    {
        let ghost before = out@;
        let ghost rest = le_bytes((cur / 256) as nat, (n - i - 1) as nat);
        out.push((cur % 256) as u8);
        assert(before + (seq![(cur % 256) as u8] + rest) =~= out@ + rest);
        cur = cur / 256;
        i = i + 1;
    }
    assert(out@ + le_bytes(cur as nat, 0) =~= out@);
}

/// Reads `n` bytes at `pos`, least significant first.
fn get_uint(b: &Vec<u8>, pos: usize, n: usize) -> (r: u128)
    requires
        n <= 16,
        pos + n <= b@.len(),
    ensures
        r == le_value(b@.subrange(pos as int, pos + n)),
{
    proof {
        lemma_pow256_facts();
    }
    let len = b.len();
    let mut r: u128 = 0;
    let mut i: usize = n;
    proof {
        assert(b@.subrange(pos + n, pos + n) =~= Seq::<u8>::empty());
    }
    while i > 0
        invariant
            i <= n <= 16,
            pos + n <= b@.len(),
            len == b@.len(),
            r == le_value(b@.subrange(pos + i, pos + n)),
            pow256(16) == 0x1_0000_0000_0000_0000_0000_0000_0000_0000,
        decreases i,
    {
        let ghost tail = b@.subrange(pos + i, pos + n);
        let ghost whole = b@.subrange(pos + i - 1, pos + n);
        assert(whole.drop_first() =~= tail);
        proof {
            lemma_le_value_bound(whole);
            assert(pow256(whole.len()) <= pow256(16)) by {
                lemma_pow256_mono(whole.len(), 16);
            }
        }
        assert(whole[0] == b@[pos + i - 1]);
        assert(le_value(whole) == whole[0] + 256 * le_value(tail));
        assert(le_value(whole) < pow256(whole.len()));
        assert(whole.len() <= 16);
        assert(b@[pos + i - 1] + 256 * r < 0x1_0000_0000_0000_0000_0000_0000_0000_0000);
        let idx: usize = pos + i - 1;
        let bv: u8 = b[idx];
        let byte: u128 = bv as u128;
        let shifted = 256 * r;
        r = byte + shifted;
        i = i - 1;
    }
    r
}

proof fn lemma_pow256_mono(a: nat, b: nat)
    requires
        a <= b,
    ensures
        pow256(a) <= pow256(b),
    decreases b,
{
    if a < b {
        lemma_pow256_mono(a, (b - 1) as nat);
    }
}

/// Bytes before the centroid arrays: length, capacity, count, sum, min, max.
pub const HEADER_LEN: usize = 44;

/// Bytes per centroid: an eight-byte mean and a four-byte weight.
pub const CENTROID_LEN: usize = 12;

/// Two's complement: the 64-bit pattern of `x`.
pub open spec fn bits64(x: int) -> nat {
    if x >= 0 { x as nat } else { (x + 0x1_0000_0000_0000_0000) as nat }
}

/// The signed value of a 64-bit pattern.
pub open spec fn signed64(u: nat) -> int {
    if u < 0x8000_0000_0000_0000 { u as int } else { u - 0x1_0000_0000_0000_0000 }
}

/// Two's complement: the 128-bit pattern of `x`.
pub open spec fn bits128(x: int) -> nat {
    if x >= 0 { x as nat } else { (x + 0x1_0000_0000_0000_0000_0000_0000_0000_0000) as nat }
}

/// The signed value of a 128-bit pattern.
pub open spec fn signed128(u: nat) -> int {
    if u < 0x8000_0000_0000_0000_0000_0000_0000_0000 { u as int } else { u - 0x1_0000_0000_0000_0000_0000_0000_0000_0000 }
}

pub open spec fn means_bytes(cs: Seq<Centroid>) -> Seq<u8>
    decreases cs.len(),
{
    if cs.len() == 0 {
        Seq::empty()
    } else {
        means_bytes(cs.drop_last()) + le_bytes(bits64(cs.last().mean as int), 8)
    }
}

pub open spec fn weights_bytes(cs: Seq<Centroid>) -> Seq<u8>
    decreases cs.len(),
{
    if cs.len() == 0 {
        Seq::empty()
    } else {
        weights_bytes(cs.drop_last()) + le_bytes(cs.last().weight as nat, 4)
    }
}

/// The encoding: a four-byte total length, then capacity and count (four
/// bytes each), sum (sixteen bytes, as the exact sum of `i64` observations
/// may need more than eight), min and max (eight each), the means (eight
/// each) and the weights (four each), every number least significant byte
/// first. There is one mean and one weight per centroid: `k` is the number of
/// centroids, which is at most `min(capacity, count)`, so no zero-weight
/// padding is written, and the decoder takes `k` from the total length.
pub open spec fn encoding(d: TDigest) -> Seq<u8> {
    let cs = d.centroids@;
    le_bytes((HEADER_LEN + CENTROID_LEN * cs.len()) as nat, 4)
        + le_bytes(d.max_size as nat, 4)
        + le_bytes(d.count as nat, 4)
        + le_bytes(bits128(d.sum as int), 16)
        + le_bytes(bits64(d.min as int), 8)
        + le_bytes(bits64(d.max as int), 8)
        + means_bytes(cs)
        + weights_bytes(cs)
}

/// The number stored in `n` bytes at `pos`.
pub open spec fn field(b: Seq<u8>, pos: int, n: int) -> nat {
    le_value(b.subrange(pos, pos + n))
}

/// How many centroids a byte string of this length holds.
pub open spec fn centroid_count(b: Seq<u8>) -> int {
    (b.len() - HEADER_LEN) / (CENTROID_LEN as int)
}

pub open spec fn parsed_centroids(b: Seq<u8>) -> Seq<Centroid> {
    let k = centroid_count(b);
    Seq::new(k as nat, |i: int| Centroid {
        mean: signed64(field(b, HEADER_LEN + 8 * i, 8)) as i64,
        weight: field(b, HEADER_LEN + 8 * k + 4 * i, 4) as u32,
    })
}

pub open spec fn parsed_max_size(b: Seq<u8>) -> nat { field(b, 4, 4) }
pub open spec fn parsed_count(b: Seq<u8>) -> nat { field(b, 8, 4) }
pub open spec fn parsed_sum(b: Seq<u8>) -> int { signed128(field(b, 12, 16)) }
pub open spec fn parsed_min(b: Seq<u8>) -> int { signed64(field(b, 28, 8)) }
pub open spec fn parsed_max(b: Seq<u8>) -> int { signed64(field(b, 36, 8)) }

/// The length checks of the layout: a full header, whole centroids, and a
/// length field that matches.
pub open spec fn framed(b: Seq<u8>) -> bool {
    &&& b.len() >= HEADER_LEN
    &&& (b.len() - HEADER_LEN) % (CENTROID_LEN as int) == 0
    &&& field(b, 0, 4) == b.len()
}

/// The bytes encode a well-formed digest.
pub open spec fn valid_encoding(b: Seq<u8>) -> bool {
    &&& framed(b)
    &&& shape_wf(parsed_centroids(b), parsed_sum(b), parsed_count(b) as int, parsed_min(b), parsed_max(b), parsed_max_size(b) as int)
}

fn to_bits64(x: i64) -> (r: u64)
    ensures
        r == bits64(x as int),
{
    if x >= 0 { x as u64 } else { u64::MAX - (-(x + 1)) as u64 }
}

fn from_bits64(u: u64) -> (r: i64)
    ensures
        r == signed64(u as nat),
{
    if u < 0x8000_0000_0000_0000 { u as i64 } else { -((u64::MAX - u) as i64) - 1 }
}

fn to_bits128(x: i128) -> (r: u128)
    ensures
        r == bits128(x as int),
{
    if x >= 0 { x as u128 } else { u128::MAX - (-(x + 1)) as u128 }
}

fn from_bits128(u: u128) -> (r: i128)
    ensures
        r == signed128(u as nat),
{
    if u < 0x8000_0000_0000_0000_0000_0000_0000_0000 { u as i128 } else { -((u128::MAX - u) as i128) - 1 }
}

/// Encodes a digest into bytes.
pub fn encode(d: &TDigest) -> (r: Vec<u8>)
    requires
        d.wf(),
    ensures
        r@ == encoding(*d),
{
    proof {
        lemma_pow256_facts();
    }
    let n = d.centroids.len();
    let ghost cs = d.centroids@;
    let mut out: Vec<u8> = Vec::new();
    put_uint(&mut out, (HEADER_LEN + CENTROID_LEN * n) as u128, 4);
    put_uint(&mut out, d.max_size as u128, 4);
    put_uint(&mut out, d.count as u128, 4);
    put_uint(&mut out, to_bits128(d.sum), 16);
    put_uint(&mut out, to_bits64(d.min) as u128, 8);
    put_uint(&mut out, to_bits64(d.max) as u128, 8);
    let ghost head = out@;
    assert(cs.take(0) =~= Seq::<Centroid>::empty());
    assert(head + means_bytes(cs.take(0)) =~= head);
    let mut i: usize = 0;
    while i < n
        invariant
            n == cs.len(),
            cs == d.centroids@,
            i <= n,
            pow256(8) == 0x1_0000_0000_0000_0000,
            out@ == head + means_bytes(cs.take(i as int)),
        decreases n - i,
    {
        let m = d.centroids[i].mean;
        put_uint(&mut out, to_bits64(m) as u128, 8);
        assert(cs.take(i + 1).drop_last() =~= cs.take(i as int));
        assert(out@ =~= head + means_bytes(cs.take(i + 1)));
        i = i + 1;
    }
    let ghost mid = out@;
    assert(mid + weights_bytes(cs.take(0)) =~= mid);
    let mut j: usize = 0;
    while j < n
        invariant
            n == cs.len(),
            cs == d.centroids@,
            j <= n,
            pow256(4) == 0x1_0000_0000,
            out@ == mid + weights_bytes(cs.take(j as int)),
        decreases n - j,
    {
        let w = d.centroids[j].weight;
        put_uint(&mut out, w as u128, 4);
        assert(cs.take(j + 1).drop_last() =~= cs.take(j as int));
        assert(out@ =~= mid + weights_bytes(cs.take(j + 1)));
        j = j + 1;
    }
    assert(cs.take(n as int) =~= cs);
    assert(out@ =~= encoding(*d));
    out
}

/// Reads a field of eight bytes as a 64-bit pattern.
fn get_u64(b: &Vec<u8>, pos: usize) -> (r: u64)
    requires
        pos + 8 <= b@.len(),
    ensures
        r == field(b@, pos as int, 8),
{
    proof {
        lemma_pow256_facts();
        lemma_le_value_bound(b@.subrange(pos as int, pos + 8));
    }
    get_uint(b, pos, 8) as u64
}

/// Reads a field of four bytes.
fn get_u32(b: &Vec<u8>, pos: usize) -> (r: u32)
    requires
        pos + 4 <= b@.len(),
    ensures
        r == field(b@, pos as int, 4),
{
    proof {
        lemma_pow256_facts();
        lemma_le_value_bound(b@.subrange(pos as int, pos + 4));
    }
    get_uint(b, pos, 4) as u32
}

/// Decodes bytes into a digest. Succeeds exactly when the bytes are the
/// encoding of a well-formed digest; nothing is produced otherwise.
pub fn decode(b: &Vec<u8>) -> (r: Result<TDigest, TDigestError>)
    ensures
        r is Ok <==> valid_encoding(b@),
        r is Err ==> r == Err::<TDigest, TDigestError>(TDigestError::Malformed),
        r matches Ok(d) ==> {
            &&& d.wf()
            &&& d.centroids@ == parsed_centroids(b@)
            &&& d.sum == parsed_sum(b@)
            &&& d.count == parsed_count(b@)
            &&& d.min == parsed_min(b@)
            &&& d.max == parsed_max(b@)
            &&& d.max_size == parsed_max_size(b@)
        },
{
    let len = b.len();
    if len < HEADER_LEN || (len - HEADER_LEN) % CENTROID_LEN != 0 {
        return Err(TDigestError::Malformed);
    }
    if get_u32(b, 0) as usize != len {
        return Err(TDigestError::Malformed);
    }
    let k = (len - HEADER_LEN) / CENTROID_LEN;
    proof {
        lemma_fundamental_div_mod((len - HEADER_LEN) as int, CENTROID_LEN as int);
        lemma_pow256_facts();
        lemma_le_value_bound(b@.subrange(12, 28));
    }
    let cap = get_u32(b, 4);
    let count = get_u32(b, 8);
    let sum = from_bits128(get_uint(b, 12, 16));
    let min = from_bits64(get_u64(b, 28));
    let max = from_bits64(get_u64(b, 36));
    let ghost pcs = parsed_centroids(b@);
    let mut cents: Vec<Centroid> = Vec::new();
    let mut i: usize = 0;
    while i < k
        invariant
            len == b@.len(),
            len == HEADER_LEN + CENTROID_LEN * k,
            k == centroid_count(b@),
            pcs == parsed_centroids(b@),
            i <= k,
            cents@ == pcs.take(i as int),
        decreases k - i,
    {
        let m = from_bits64(get_u64(b, HEADER_LEN + 8 * i));
        let w = get_u32(b, HEADER_LEN + 8 * k + 4 * i);
        let c = Centroid { mean: m, weight: w };
        assert(c == pcs[i as int]);
        cents.push(c);
        i = i + 1;
        assert(cents@ =~= pcs.take(i as int));
    }
    assert(pcs.take(k as int) =~= pcs);
    let d = TDigest { centroids: cents, sum, count: count as u64, min, max, max_size: cap as usize };
    if d.is_wf() {
        Ok(d)
    } else {
        Err(TDigestError::Malformed)
    }
}

proof fn lemma_means_bytes(cs: Seq<Centroid>, i: int)
    requires
        0 <= i < cs.len(),
    ensures
        means_bytes(cs).len() == 8 * cs.len(),
        means_bytes(cs).subrange(8 * i, 8 * i + 8) == le_bytes(bits64(cs[i].mean as int), 8),
    decreases cs.len(),
{
    let init = cs.drop_last();
    lemma_le_bytes_len(bits64(cs.last().mean as int), 8);
    lemma_means_bytes_len(init);
    if i < cs.len() - 1 {
        lemma_means_bytes(init, i);
        assert(means_bytes(cs).subrange(8 * i, 8 * i + 8) =~= means_bytes(init).subrange(8 * i, 8 * i + 8));
    } else {
        assert(means_bytes(cs).subrange(8 * i, 8 * i + 8) =~= le_bytes(bits64(cs.last().mean as int), 8));
    }
}

proof fn lemma_means_bytes_len(cs: Seq<Centroid>)
    ensures
        means_bytes(cs).len() == 8 * cs.len(),
    decreases cs.len(),
{
    if cs.len() > 0 {
        lemma_means_bytes_len(cs.drop_last());
        lemma_le_bytes_len(bits64(cs.last().mean as int), 8);
    }
}

proof fn lemma_weights_bytes_len(cs: Seq<Centroid>)
    ensures
        weights_bytes(cs).len() == 4 * cs.len(),
    decreases cs.len(),
{
    if cs.len() > 0 {
        lemma_weights_bytes_len(cs.drop_last());
        lemma_le_bytes_len(cs.last().weight as nat, 4);
    }
}

proof fn lemma_weights_bytes(cs: Seq<Centroid>, i: int)
    requires
        0 <= i < cs.len(),
    ensures
        weights_bytes(cs).subrange(4 * i, 4 * i + 4) == le_bytes(cs[i].weight as nat, 4),
    decreases cs.len(),
{
    let init = cs.drop_last();
    lemma_le_bytes_len(cs.last().weight as nat, 4);
    lemma_weights_bytes_len(init);
    if i < cs.len() - 1 {
        lemma_weights_bytes(init, i);
        assert(weights_bytes(cs).subrange(4 * i, 4 * i + 4) =~= weights_bytes(init).subrange(4 * i, 4 * i + 4));
    } else {
        assert(weights_bytes(cs).subrange(4 * i, 4 * i + 4) =~= le_bytes(cs.last().weight as nat, 4));
    }
}

/// Decoding the encoding of a well-formed digest gives back its capacity,
/// count, sum, min, max, and every mean and weight, exactly.
pub proof fn lemma_round_trip(d: TDigest)
    requires
        d.wf(),
    ensures
        valid_encoding(encoding(d)),
        parsed_centroids(encoding(d)) == d.centroids@,
        parsed_sum(encoding(d)) == d.sum,
        parsed_count(encoding(d)) == d.count,
        parsed_min(encoding(d)) == d.min,
        parsed_max(encoding(d)) == d.max,
        parsed_max_size(encoding(d)) == d.max_size,
{
    lemma_pow256_facts();
    let cs = d.centroids@;
    let n = cs.len() as int;
    let e = encoding(d);
    let total = (HEADER_LEN + CENTROID_LEN * n) as nat;
    let p0 = le_bytes(total, 4);
    let p1 = le_bytes(d.max_size as nat, 4);
    let p2 = le_bytes(d.count as nat, 4);
    let p3 = le_bytes(bits128(d.sum as int), 16);
    let p4 = le_bytes(bits64(d.min as int), 8);
    let p5 = le_bytes(bits64(d.max as int), 8);
    let mb = means_bytes(cs);
    let wb = weights_bytes(cs);
    lemma_le_bytes_len(total, 4);
    lemma_le_bytes_len(d.max_size as nat, 4);
    lemma_le_bytes_len(d.count as nat, 4);
    lemma_le_bytes_len(bits128(d.sum as int), 16);
    lemma_le_bytes_len(bits64(d.min as int), 8);
    lemma_le_bytes_len(bits64(d.max as int), 8);
    lemma_means_bytes_len(cs);
    lemma_weights_bytes_len(cs);
    assert(e == p0 + p1 + p2 + p3 + p4 + p5 + mb + wb);
    assert(e.len() == total);
    assert(e.subrange(0, 4) =~= p0);
    assert(e.subrange(4, 8) =~= p1);
    assert(e.subrange(8, 12) =~= p2);
    assert(e.subrange(12, 28) =~= p3);
    assert(e.subrange(28, 36) =~= p4);
    assert(e.subrange(36, 44) =~= p5);
    lemma_le_round_trip(total, 4);
    lemma_le_round_trip(d.max_size as nat, 4);
    lemma_le_round_trip(d.count as nat, 4);
    lemma_le_round_trip(bits128(d.sum as int), 16);
    lemma_le_round_trip(bits64(d.min as int), 8);
    lemma_le_round_trip(bits64(d.max as int), 8);
    assert((e.len() - HEADER_LEN) as int == CENTROID_LEN * n);
    assert(centroid_count(e) == n) by {
        lemma_fundamental_div_mod(CENTROID_LEN * n, CENTROID_LEN as int);
        vstd::arithmetic::div_mod::lemma_div_multiples_vanish(n, CENTROID_LEN as int);
    }
    assert forall|i: int| 0 <= i < n implies #[trigger] parsed_centroids(e)[i] == cs[i] by {
        lemma_means_bytes(cs, i);
        lemma_weights_bytes(cs, i);
        assert(e.subrange(HEADER_LEN + 8 * i, HEADER_LEN + 8 * i + 8) =~= mb.subrange(8 * i, 8 * i + 8));
        assert(e.subrange(HEADER_LEN + 8 * n + 4 * i, HEADER_LEN + 8 * n + 4 * i + 4) =~= wb.subrange(4 * i, 4 * i + 4));
        lemma_le_round_trip(bits64(cs[i].mean as int), 8);
        lemma_le_round_trip(cs[i].weight as nat, 4);
    }
    assert(parsed_centroids(e) =~= cs);
}

} // verus!
