//! The XXHash32 checksum, as an incremental state.
//!
//! `xxh32` is the full mathematical definition of the published algorithm:
//! four lanes absorb 16-byte stripes, the remainder is mixed word- and
//! byte-wise, and an avalanche finishes the digest.  The executable state is
//! proved to return exactly `xxh32` over everything it has absorbed.
//!
//! A state may absorb a stream across several `update` calls, but only the
//! final call may pass a length that is not a multiple of the 16-byte stripe:
//! the residual tail is mixed into the returned digest without being stored,
//! so a later call on such a state reports `WrongCallSequence`.

use vstd::prelude::*;

use crate::bytes::le32;
use crate::bytes::read_vec_u32_le;
use crate::errors::Lz4Error;

verus! {

pub const PRIME1: u32 = 2654435761;

pub const PRIME2: u32 = 2246822519;

pub const PRIME3: u32 = 3266489917;

pub const PRIME4: u32 = 668265263;

pub const PRIME5: u32 = 374761393;

/// 32-bit wrapping addition.
#[verifier::opaque]
pub open spec fn wadd(a: u32, b: u32) -> u32 {
    vstd::wrapping::u32_specs::wrapping_add(a, b)
}

/// 32-bit wrapping subtraction.
#[verifier::opaque]
pub open spec fn wsub(a: u32, b: u32) -> u32 {
    vstd::wrapping::u32_specs::wrapping_sub(a, b)
}

/// 32-bit wrapping multiplication.
#[verifier::opaque]
pub open spec fn wmul(a: u32, b: u32) -> u32 {
    vstd::wrapping::u32_specs::wrapping_mul(a, b)
}

fn xadd(a: u32, b: u32) -> (r: u32)
    ensures
        r == wadd(a, b),
{
    proof {
        reveal(wadd);
    }
    a.wrapping_add(b)
}

fn xsub(a: u32, b: u32) -> (r: u32)
    ensures
        r == wsub(a, b),
{
    proof {
        reveal(wsub);
    }
    a.wrapping_sub(b)
}

fn xmul(a: u32, b: u32) -> (r: u32)
    ensures
        r == wmul(a, b),
{
    proof {
        reveal(wmul);
    }
    a.wrapping_mul(b)
}

/// Rotates a 32-bit word left by `k` bits, for `0 < k < 32`.
pub open spec fn spec_rotl(x: u32, k: u32) -> u32 {
    (x << k) | (x >> (32 - k) as u32)
}

fn rotl(x: u32, k: u32) -> (r: u32)
    requires
        0 < k < 32,
    ensures
        r == spec_rotl(x, k),
{
    (x << k) | (x >> (32 - k))
}

/// One round of a lane: absorb a 32-bit word.
pub open spec fn xxh_round(acc: u32, input: u32) -> u32 {
    wmul(spec_rotl(wadd(wmul(input, PRIME2), acc), 13), PRIME1)
}

/// The four lanes at the start of a stream.
pub open spec fn init_vs(seed: u32) -> (u32, u32, u32, u32) {
    (wadd(wadd(seed, PRIME1), PRIME2), wadd(seed, PRIME2), seed, wsub(seed, PRIME1))
}

/// Absorbs whole 16-byte stripes into the four lanes; a tail shorter than
/// one stripe is left untouched.
pub open spec fn absorb(vs: (u32, u32, u32, u32), data: Seq<u8>) -> (u32, u32, u32, u32)
    decreases data.len(),
{
    if data.len() < 16 {
        vs
    } else {
        let v = (
            xxh_round(vs.0, le32(data, 0) as u32),
            xxh_round(vs.1, le32(data, 4) as u32),
            xxh_round(vs.2, le32(data, 8) as u32),
            xxh_round(vs.3, le32(data, 12) as u32),
        );
        absorb(v, data.skip(16))
    }
}

/// Absorbing a stream in two parts equals absorbing it at once, as long as
/// the first part is whole stripes.
pub proof fn lemma_absorb_append(vs: (u32, u32, u32, u32), a: Seq<u8>, b: Seq<u8>)
    requires
        a.len() % 16 == 0,
    ensures
        absorb(vs, a + b) == absorb(absorb(vs, a), b),
    decreases a.len(),
{
    if a.len() == 0 {
        assert(a + b =~= b);
    } else {
        let ab = a + b;
        assert(le32(ab, 0) == le32(a, 0));
        assert(le32(ab, 4) == le32(a, 4));
        assert(le32(ab, 8) == le32(a, 8));
        assert(le32(ab, 12) == le32(a, 12));
        let v = (
            xxh_round(vs.0, le32(a, 0) as u32),
            xxh_round(vs.1, le32(a, 4) as u32),
            xxh_round(vs.2, le32(a, 8) as u32),
            xxh_round(vs.3, le32(a, 12) as u32),
        );
        assert(ab.skip(16) =~= a.skip(16) + b);
        lemma_absorb_append(v, a.skip(16), b);
    }
}

/// Mixes whole 32-bit words of the tail, from position `p` on.
pub open spec fn fold_words(h: u32, data: Seq<u8>, p: int) -> u32
    decreases data.len() - p,
{
    if p < 0 || p + 4 > data.len() {
        h
    } else {
        fold_words(wmul(spec_rotl(wadd(wmul(le32(data, p) as u32, PRIME3), h), 17), PRIME4), data, p + 4)
    }
}

/// Mixes the last bytes of the tail, from position `p` on.
pub open spec fn fold_bytes(h: u32, data: Seq<u8>, p: int) -> u32
    decreases data.len() - p,
{
    if p < 0 || p >= data.len() {
        h
    } else {
        fold_bytes(wmul(spec_rotl(wadd(wmul(data[p] as u32, PRIME5), h), 11), PRIME1), data, p + 1)
    }
}

/// The final mixing of the digest.
pub open spec fn avalanche(h: u32) -> u32 {
    let a = wmul(h ^ (h >> 15), PRIME2);
    let b = wmul(a ^ (a >> 13), PRIME3);
    b ^ (b >> 16)
}

/// The XXHash32 digest of `data` under `seed`.
pub open spec fn xxh32(seed: u32, data: Seq<u8>) -> u32 {
    let n = data.len() as int;
    let k16 = n - (n % 16);
    let vs = absorb(init_vs(seed), data.take(k16));
    let h0 = if n >= 16 {
        wadd(
            wadd(wadd(spec_rotl(vs.0, 1), spec_rotl(vs.1, 7)), spec_rotl(vs.2, 12)),
            spec_rotl(vs.3, 18),
        )
    } else {
        wadd(seed, PRIME5)
    };
    let h1 = wadd(h0, n as u32);
    let h2 = fold_words(h1, data, k16);
    let h3 = fold_bytes(h2, data, k16 + 4 * ((n - k16) / 4));
    avalanche(h3)
}

/// One stripe extends the absorbed prefix by one round of each lane.
proof fn lemma_stripe_step(v: (u32, u32, u32, u32), data: Seq<u8>, start: int, pos: int)
    requires
        0 <= start <= pos,
        pos + 16 <= data.len(),
        (pos - start) % 16 == 0,
    ensures
        absorb(v, data.subrange(start, pos + 16)) == {
            let vs = absorb(v, data.subrange(start, pos));
            (
                xxh_round(vs.0, le32(data, pos) as u32),
                xxh_round(vs.1, le32(data, pos + 4) as u32),
                xxh_round(vs.2, le32(data, pos + 8) as u32),
                xxh_round(vs.3, le32(data, pos + 12) as u32),
            )
        },
{
    let pre = data.subrange(start, pos);
    let stripe = data.subrange(pos, pos + 16);
    assert(data.subrange(start, pos + 16) =~= pre + stripe);
    lemma_absorb_append(v, pre, stripe);
    assert(le32(stripe, 0) == le32(data, pos));
    assert(le32(stripe, 4) == le32(data, pos + 4));
    assert(le32(stripe, 8) == le32(data, pos + 8));
    assert(le32(stripe, 12) == le32(data, pos + 12));
    let vs = absorb(v, pre);
    let stepped = (
        xxh_round(vs.0, le32(stripe, 0) as u32),
        xxh_round(vs.1, le32(stripe, 4) as u32),
        xxh_round(vs.2, le32(stripe, 8) as u32),
        xxh_round(vs.3, le32(stripe, 12) as u32),
    );
    assert(absorb(vs, stripe) == absorb(stepped, stripe.skip(16)));
    assert(stripe.skip(16).len() == 0);
    assert(absorb(stepped, stripe.skip(16)) == stepped);
}

/// Absorbs all whole stripes of `buf[start .. start + len]` into the lanes.
#[verifier::rlimit(100)]
fn absorb_stripes(v: (u32, u32, u32, u32), buf: &Vec<u8>, start: usize, len: usize) -> (r: (
    (u32, u32, u32, u32),
    usize,
))
    requires
        start + len <= buf.len(),
        len >= 16,
    ensures
        r.1 == start + 16 * (len as int / 16),
        r.0 == absorb(v, buf@.subrange(start as int, r.1 as int)),
{
    let end = start + len;
    let limit = end - 16;
    let mut pos = start;
    let mut v1 = v.0;
    let mut v2 = v.1;
    let mut v3 = v.2;
    let mut v4 = v.3;
    while pos <= limit
        invariant
            start <= pos <= end,
            (pos - start) % 16 == 0,
            pos <= limit + 16,
            start + len <= buf.len(),
            end == start + len,
            limit == end - 16,
            (v1, v2, v3, v4) == absorb(v, buf@.subrange(start as int, pos as int)),
        decreases end - pos,
    {
        let w0 = read_vec_u32_le(buf, pos);
        let w1 = read_vec_u32_le(buf, pos + 4);
        let w2 = read_vec_u32_le(buf, pos + 8);
        let w3 = read_vec_u32_le(buf, pos + 12);
        proof {
            lemma_stripe_step(v, buf@, start as int, pos as int);
        }
        v1 = xmul(rotl(xadd(xmul(w0, PRIME2), v1), 13), PRIME1);
        v2 = xmul(rotl(xadd(xmul(w1, PRIME2), v2), 13), PRIME1);
        v3 = xmul(rotl(xadd(xmul(w2, PRIME2), v3), 13), PRIME1);
        v4 = xmul(rotl(xadd(xmul(w3, PRIME2), v4), 13), PRIME1);
        pos = pos + 16;
    }
    proof {
        assert(pos - start == 16 * (len as int / 16));
    }
    ((v1, v2, v3, v4), pos)
}

/// Mixes the residual tail of the stream, word-wise then byte-wise, as the
/// fold of `a` from position `q0` on.
#[verifier::rlimit(100)]
fn mix_tail(
    h0: u32,
    buf: &Vec<u8>,
    pos0: usize,
    end: usize,
    Ghost(a): Ghost<Seq<u8>>,
    Ghost(q0): Ghost<int>,
) -> (r: u32)
    requires
        pos0 <= end <= buf.len(),
        0 <= q0,
        a.len() - q0 == end - pos0,
        forall|j: int| 0 <= j < end - pos0 ==> #[trigger] a[q0 + j] == buf@[pos0 + j],
    ensures
        r == fold_bytes(
            fold_words(h0, a, q0),
            a,
            q0 + 4 * ((a.len() - q0) / 4),
        ),
{
    let mut h32 = h0;
    let mut pos = pos0;
    while end - pos >= 4
        invariant
            pos0 <= pos <= end,
            end <= buf.len(),
            (pos - pos0) % 4 == 0,
            a.len() - q0 == end - pos0,
            0 <= q0,
            forall|j: int| 0 <= j < end - pos0 ==> #[trigger] a[q0 + j] == buf@[pos0 + j],
            fold_words(h0, a, q0) == fold_words(h32, a, q0 + (pos - pos0)),
        decreases end - pos,
    {
        let w = read_vec_u32_le(buf, pos);
        proof {
            assert(a[q0 + (pos - pos0)] == buf@[pos as int]);
            assert(a[q0 + (pos - pos0 + 1)] == buf@[pos + 1]);
            assert(a[q0 + (pos - pos0 + 2)] == buf@[pos + 2]);
            assert(a[q0 + (pos - pos0 + 3)] == buf@[pos + 3]);
            assert(le32(a, q0 + (pos - pos0)) == le32(buf@, pos as int));
        }
        h32 = xmul(rotl(xadd(xmul(w, PRIME3), h32), 17), PRIME4);
        pos = pos + 4;
    }
    let ghost h2 = fold_words(h0, a, q0);
    proof {
        assert(q0 + (pos - pos0) == q0 + 4 * ((a.len() - q0) / 4));
    }
    let ghost qb = q0 + (pos - pos0);
    while pos < end
        invariant
            pos0 <= pos <= end,
            end <= buf.len(),
            a.len() - q0 == end - pos0,
            0 <= q0,
            forall|j: int| 0 <= j < end - pos0 ==> #[trigger] a[q0 + j] == buf@[pos0 + j],
            fold_bytes(h2, a, qb) == fold_bytes(h32, a, q0 + (pos - pos0)),
        decreases end - pos,
    {
        let x = buf[pos];
        proof {
            assert(a[q0 + (pos - pos0)] == buf@[pos as int]);
        }
        h32 = xmul(rotl(xadd(xmul(x as u32, PRIME5), h32), 11), PRIME1);
        pos = pos + 1;
    }
    h32
}

/// The incremental XXHash32 state: four lanes and the byte count.
///
/// The ghost `absorbed` sequence is everything the state has been fed; the
/// well-formedness predicate ties the lanes to it whenever the count is at a
/// stripe boundary (elsewhere the state only reports `WrongCallSequence`).
pub struct XXHash32 {
    v1: u32,
    v2: u32,
    v3: u32,
    v4: u32,
    total: usize,
    seed: Ghost<u32>,
    absorbed: Ghost<Seq<u8>>,
}

impl XXHash32 {
    pub closed spec fn wf(self) -> bool {
        &&& self.total == self.absorbed@.len()
        &&& (self.total as int % 16 == 0 ==> {
            let vs = absorb(init_vs(self.seed@), self.absorbed@);
            self.v1 == vs.0 && self.v2 == vs.1 && self.v3 == vs.2 && self.v4 == vs.3
        })
    }

    pub closed spec fn spec_seed(self) -> u32 {
        self.seed@
    }

    pub closed spec fn spec_absorbed(self) -> Seq<u8> {
        self.absorbed@
    }

    pub closed spec fn spec_total(self) -> usize {
        self.total
    }

    /// A fresh state that has absorbed nothing.
    pub fn new(seed: u32) -> (r: XXHash32)
        ensures
            r.wf(),
            r.spec_seed() == seed,
            r.spec_absorbed() == Seq::<u8>::empty(),
            r.spec_total() == 0,
    {
        XXHash32 {
            v1: xadd(xadd(seed, PRIME1), PRIME2),
            v2: xadd(seed, PRIME2),
            v3: seed,
            v4: xsub(seed, PRIME1),
            total: 0,
            seed: Ghost(seed),
            absorbed: Ghost(Seq::empty()),
        }
    }

    /// Absorbs `buf[start .. start + len]` and returns the digest of the
    /// whole stream up to here, as if it ended with this call.
    ///
    /// Fails with `WrongCallSequence` exactly when an earlier call left the
    /// byte count off a 16-byte stripe boundary.
    #[verifier::loop_isolation(false)]
    #[verifier::rlimit(100)]
    pub fn update(&mut self, buf: &Vec<u8>, start: usize, len: usize) -> (r: Result<u32, Lz4Error>)
        requires
            old(self).wf(),
            start + len <= buf.len(),
            old(self).spec_total() + len <= usize::MAX,
        ensures
            final(self).wf(),
            final(self).spec_seed() == old(self).spec_seed(),
            match r {
                Ok(h) => old(self).spec_total() as int % 16 == 0 && final(self).spec_absorbed()
                    == old(self).spec_absorbed() + buf@.subrange(
                    start as int,
                    start + len,
                ) && final(self).spec_total() == old(self).spec_total() + len && h == xxh32(
                    old(self).spec_seed(),
                    final(self).spec_absorbed(),
                ),
                Err(e) => e == Lz4Error::WrongCallSequence && old(self).spec_total() as int % 16
                    != 0 && final(self).spec_total() == old(self).spec_total()
                    && final(self).spec_absorbed() == old(self).spec_absorbed(),
            },
    {
        let ghost prev = self.absorbed@;
        let ghost vs_old = (self.v1, self.v2, self.v3, self.v4);
        let ghost slice = buf@.subrange(start as int, start + len);
        let ghost a_new = prev + slice;
        let end = start + len;
        let mut pos = start;
        if len >= 16 {
            let (vs2, pos2) = absorb_stripes((self.v1, self.v2, self.v3, self.v4), buf, start, len);
            self.v1 = vs2.0;
            self.v2 = vs2.1;
            self.v3 = vs2.2;
            self.v4 = vs2.3;
            pos = pos2;
        }
        let tot = self.total;
        proof {
            assert(tot & 0xf == tot % 16) by (bit_vector);
        }
        if tot & 0xf != 0 {
            return Err(Lz4Error::WrongCallSequence);
        }
        self.total = self.total + len;
        proof {
            self.absorbed@ = a_new;
        }
        let ghost n = a_new.len() as int;
        let ghost k16 = n - (n % 16);
        proof {
            // the stripes consumed by this call line up with the stripe
            // prefix of the whole absorbed stream
            assert(prev.len() % 16 == 0);
            assert(n == prev.len() + len);
            assert(pos - start == 16 * (len as int / 16) || (len < 16 && pos == start));
            assert(k16 == prev.len() + (pos - start));
            let pre = buf@.subrange(start as int, pos as int);
            assert((self.v1, self.v2, self.v3, self.v4) == absorb(vs_old, pre));
            lemma_absorb_append(init_vs(self.seed@), prev, pre);
            assert(prev + pre =~= a_new.take(k16));
            assert((self.v1, self.v2, self.v3, self.v4) == absorb(
                init_vs(self.seed@),
                a_new.take(k16),
            ));
        }
        let mut h32: u32;
        if self.total >= 16 {
            h32 = xadd(
                xadd(xadd(rotl(self.v1, 1), rotl(self.v2, 7)), rotl(self.v3, 12)),
                rotl(self.v4, 18),
            );
        } else {
            h32 = xadd(self.v3, PRIME5);
        }
        h32 = xadd(h32, #[verifier::truncate] (self.total as u32));
        proof {
            assert(forall|j: int| 0 <= j < end - pos ==> #[trigger] a_new[k16 + j] == buf@[pos + j]);
        }
        h32 = mix_tail(h32, buf, pos, end, Ghost(a_new), Ghost(k16));
        let ghost h3 = h32;
        h32 = xmul(h32 ^ (h32 >> 15), PRIME2);
        h32 = xmul(h32 ^ (h32 >> 13), PRIME3);
        let r = h32 ^ (h32 >> 16);
        proof {
            assert(r == avalanche(h3));
            assert(r == xxh32(self.seed@, a_new));
        }
        Ok(r)
    }
}

} // verus!
