//! Streaming 32-bit hash (xxHash32).
//!
//! The hasher folds its input into four 32-bit lane accumulators one 16-byte
//! stripe at a time; bytes that do not yet fill a stripe wait in a pending
//! buffer.  The digest is a function of the seed and of the concatenation of
//! all bytes written, never of how the input was chunked across `write`
//! calls: `write` appends to the abstract stream and `finish_32` returns
//! `spec_xxh32` of that stream.

use vstd::prelude::*;
use vstd::arithmetic::div_mod::{lemma_mod_adds, lemma_mod_self_0, lemma_mod_sub_multiples_vanish,
    lemma_small_mod};

verus! {

pub const PRIME32_1: u32 = 0x9E37_79B1;
pub const PRIME32_2: u32 = 0x85EB_CA77;
pub const PRIME32_3: u32 = 0xC2B2_AE3D;
pub const PRIME32_4: u32 = 0x27D4_EB2F;
pub const PRIME32_5: u32 = 0x1656_67B1;

/// Bytes folded into the lane accumulators per round.
pub const STRIPE_LEN: usize = 16;

/// Left rotation of a 32-bit word by a fixed positive amount.
pub open spec fn spec_rotl(x: u32, n: u32) -> u32
    recommends
        0 < n < 32,
{
    (x << n) | (x >> ((32 - n) as u32))
}

fn rotl(x: u32, n: u32) -> (r: u32)
    requires
        0 < n < 32,
    ensures
        r == spec_rotl(x, n),
{
    (x << n) | (x >> (32 - n))
}

/// One lane round: absorb a 32-bit lane into an accumulator.
#[verifier::opaque]
pub open spec fn spec_round(acc: u32, lane: u32) -> u32 {
    spec_rotl(acc.wrapping_add(lane.wrapping_mul(PRIME32_2)), 13).wrapping_mul(PRIME32_1)
}

fn round(acc: u32, lane: u32) -> (r: u32)
    ensures
        r == spec_round(acc, lane),
{
    proof {
        reveal(spec_round);
    }
    rotl(acc.wrapping_add(lane.wrapping_mul(PRIME32_2)), 13).wrapping_mul(PRIME32_1)
}

/// Finalization mix: small input deltas spread across all digest bits.
#[verifier::opaque]
pub open spec fn spec_avalanche(h: u32) -> u32 {
    let a = (h ^ (h >> 15)).wrapping_mul(PRIME32_2);
    let b = (a ^ (a >> 13)).wrapping_mul(PRIME32_3);
    b ^ (b >> 16)
}

fn avalanche(h: u32) -> (r: u32)
    ensures
        r == spec_avalanche(h),
{
    proof {
        reveal(spec_avalanche);
    }
    let a = (h ^ (h >> 15)).wrapping_mul(PRIME32_2);
    let b = (a ^ (a >> 13)).wrapping_mul(PRIME32_3);
    b ^ (b >> 16)
}

/// A 32-bit word assembled little-endian from four bytes.
pub open spec fn le4(b0: u8, b1: u8, b2: u8, b3: u8) -> u32 {
    ((b0 as int) + 256 * (b1 as int) + 65536 * (b2 as int) + 16777216 * (b3 as int)) as u32
}

fn read_le_u32(s: &[u8], i: usize) -> (r: u32)
    requires
        i + 4 <= s@.len(),
    ensures
        r == le4(s@[i as int], s@[i as int + 1], s@[i as int + 2], s@[i as int + 3]),
{
    let _len = s.len();
    (s[i] as u32) + (s[i + 1] as u32) * 256 + (s[i + 2] as u32) * 65536 + (s[i + 3] as u32)
        * 16777216
}

/// The four lane accumulators.
pub struct Lanes {
    pub v1: u32,
    pub v2: u32,
    pub v3: u32,
    pub v4: u32,
}

/// Lane initialization for a given seed.
pub open spec fn init_lanes(seed: u32) -> Lanes {
    (Lanes {
        v1: seed.wrapping_add(PRIME32_1).wrapping_add(PRIME32_2),
        v2: seed.wrapping_add(PRIME32_2),
        v3: seed,
        v4: seed.wrapping_sub(PRIME32_1),
    })
}

/// Absorb the 16-byte stripe of `s` that starts at `off` into the lanes.
pub open spec fn absorb_one_at(l: Lanes, s: Seq<u8>, off: int) -> Lanes
    recommends
        0 <= off,
        off + 16 <= s.len(),
{
    (Lanes {
        v1: spec_round(l.v1, le4(s[off], s[off + 1], s[off + 2], s[off + 3])),
        v2: spec_round(l.v2, le4(s[off + 4], s[off + 5], s[off + 6], s[off + 7])),
        v3: spec_round(l.v3, le4(s[off + 8], s[off + 9], s[off + 10], s[off + 11])),
        v4: spec_round(l.v4, le4(s[off + 12], s[off + 13], s[off + 14], s[off + 15])),
    })
}

/// Absorb every full stripe of `s[off..end]` into the lanes.
pub open spec fn absorb_range(l: Lanes, s: Seq<u8>, off: int, end: int) -> Lanes
    recommends
        0 <= off <= end <= s.len(),
    decreases end - off,
{
    if end - off < 16 {
        l
    } else {
        absorb_range(absorb_one_at(l, s, off), s, off + 16, end)
    }
}

/// One tail round over a full 32-bit lane.
#[verifier::opaque]
pub open spec fn tail_round4(h: u32, lane: u32) -> u32 {
    spec_rotl(h.wrapping_add(lane.wrapping_mul(PRIME32_3)), 17).wrapping_mul(PRIME32_4)
}

/// One tail round over a single byte.
#[verifier::opaque]
pub open spec fn tail_round1(h: u32, b: u8) -> u32 {
    spec_rotl(h.wrapping_add((b as u32).wrapping_mul(PRIME32_5)), 11).wrapping_mul(PRIME32_1)
}

/// Fold the bytes of `s[off..end]` (the stream tail) into the running
/// digest, four at a time and then singly.
pub open spec fn fold_range(h: u32, s: Seq<u8>, off: int, end: int) -> u32
    recommends
        0 <= off <= end <= s.len(),
    decreases end - off,
{
    if end - off >= 4 {
        fold_range(tail_round4(h, le4(s[off], s[off + 1], s[off + 2], s[off + 3])), s, off + 4, end)
    } else if end - off >= 1 {
        fold_range(tail_round1(h, s[off]), s, off + 1, end)
    } else {
        h
    }
}

/// The xxHash32 digest of `data` under `seed`.
pub open spec fn spec_xxh32(seed: u32, data: Seq<u8>) -> u32 {
    let n = data.len() as int;
    let body = n - (n % 16);
    let l = absorb_range(init_lanes(seed), data, 0, body);
    let h0 = if n >= 16 {
        spec_rotl(l.v1, 1).wrapping_add(spec_rotl(l.v2, 7)).wrapping_add(
            spec_rotl(l.v3, 12),
        ).wrapping_add(spec_rotl(l.v4, 18))
    } else {
        seed.wrapping_add(PRIME32_5)
    };
    let h1 = h0.wrapping_add((n % 0x1_0000_0000) as u32);
    spec_avalanche(fold_range(h1, data, body, n))
}

/// `absorb_range` reads only the bytes between `off` and `end`.
proof fn lemma_absorb_range_frame(l: Lanes, s: Seq<u8>, t: Seq<u8>, off: int, end: int)
    requires
        0 <= off,
        end <= s.len(),
        end <= t.len(),
        forall|j: int| off <= j < end ==> s[j] == #[trigger] t[j],
    ensures
        absorb_range(l, s, off, end) == absorb_range(l, t, off, end),
    decreases end - off,
{
    if end - off >= 16 {
        assert(absorb_one_at(l, s, off) == absorb_one_at(l, t, off));
        lemma_absorb_range_frame(absorb_one_at(l, s, off), s, t, off + 16, end);
    }
}

/// Absorbing one more stripe on the right extends an absorbed range.
proof fn lemma_absorb_range_snoc(l: Lanes, s: Seq<u8>, off: int, end: int)
    requires
        0 <= off <= end,
        (end - off) % 16 == 0,
    ensures
        absorb_range(l, s, off, end + 16) == absorb_one_at(absorb_range(l, s, off, end), s, end),
    decreases end - off,
{
    if end == off {
        assert(absorb_range(l, s, off, off + 16) == absorb_range(
            absorb_one_at(l, s, off),
            s,
            off + 16,
            off + 16,
        ));
        assert(absorb_range(absorb_one_at(l, s, off), s, off + 16, off + 16) == absorb_one_at(
            l,
            s,
            off,
        ));
        assert(absorb_range(l, s, off, off) == l);
    } else {
        assert(end - off >= 16) by {
            if end - off < 16 {
                lemma_small_mod((end - off) as nat, 16);
            }
        }
        assert((end - (off + 16)) % 16 == 0) by {
            lemma_mod_sub_multiples_vanish(end - off, 16);
        }
        lemma_absorb_range_snoc(absorb_one_at(l, s, off), s, off + 16, end);
    }
}

fn absorb_block(v: (u32, u32, u32, u32), s: &[u8], i: usize) -> (r: (u32, u32, u32, u32))
    requires
        i + 16 <= s@.len(),
    ensures
        ({
            let l = absorb_one_at(Lanes { v1: v.0, v2: v.1, v3: v.2, v4: v.3 }, s@, i as int);
            r.0 == l.v1 && r.1 == l.v2 && r.2 == l.v3 && r.3 == l.v4
        }),
{
    let _len = s.len();
    let l1 = read_le_u32(s, i);
    let l2 = read_le_u32(s, i + 4);
    let l3 = read_le_u32(s, i + 8);
    let l4 = read_le_u32(s, i + 12);
    (round(v.0, l1), round(v.1, l2), round(v.2, l3), round(v.3, l4))
}

/// Streaming xxHash32 state.
pub struct XxHash32 {
    seed: u32,
    total_len: u64,
    v1: u32,
    v2: u32,
    v3: u32,
    v4: u32,
    mem: Vec<u8>,
    mem_size: usize,
    history: Ghost<Seq<u8>>,
}

impl XxHash32 {
    /// The seed this hasher was created with.
    pub closed spec fn seed_spec(self) -> u32 {
        self.seed
    }

    /// The concatenation of all bytes written so far.
    pub closed spec fn stream(self) -> Seq<u8> {
        self.history@
    }

    /// Well-formedness: the pending buffer holds exactly the bytes of the
    /// stream past its last stripe boundary, and the lanes have absorbed
    /// everything before it.
    pub closed spec fn wf(self) -> bool {
        let n = self.history@.len() as int;
        let body = n - (n % 16);
        &&& self.mem@.len() == 16
        &&& self.mem_size < 16
        &&& self.total_len == n
        &&& self.mem_size as int == n % 16
        &&& (forall|j: int| 0 <= j < self.mem_size ==> self.mem@[j] == self.history@[body + j])
        &&& (Lanes { v1: self.v1, v2: self.v2, v3: self.v3, v4: self.v4 }) == absorb_range(
            init_lanes(self.seed),
            self.history@,
            0,
            body,
        )
    }

    /// Create a hasher with the provided seed.
    pub fn with_seed(seed: u32) -> (r: Self)
        ensures
            r.wf(),
            r.seed_spec() == seed,
            r.stream() == Seq::<u8>::empty(),
    {
        let mut mem: Vec<u8> = Vec::new();
        let mut i: usize = 0;
        while i < 16
            invariant
                mem@.len() == i,
                i <= 16,
            decreases 16 - i,
        {
            mem.push(0);
            i += 1;
        }
        XxHash32 {
            seed,
            total_len: 0,
            v1: seed.wrapping_add(PRIME32_1).wrapping_add(PRIME32_2),
            v2: seed.wrapping_add(PRIME32_2),
            v3: seed,
            v4: seed.wrapping_sub(PRIME32_1),
            mem,
            mem_size: 0,
            history: Ghost(Seq::empty()),
        }
    }

    /// Hash a full buffer in one shot.
    pub fn oneshot(seed: u32, data: &[u8]) -> (r: u32)
        ensures
            r == spec_xxh32(seed, data@),
    {
        let mut hasher = Self::with_seed(seed);
        let len = data.len();
        hasher.write(data);
        proof {
            assert(hasher.stream() =~= data@);
        }
        hasher.finish_32()
    }

    /// Copy `count` bytes of `data` starting at `from` into the pending
    /// buffer starting at `at`; every other field is untouched.
    fn stash(&mut self, at: usize, data: &[u8], from: usize, count: usize)
        requires
            old(self).mem@.len() == 16,
            at + count <= 16,
            from + count <= data@.len(),
        ensures
            final(self).mem@.len() == 16,
            forall|j: int|
                0 <= j < 16 ==> final(self).mem@[j] == (if at <= j < at + count {
                    data@[from + (j - at)]
                } else {
                    old(self).mem@[j]
                }),
            final(self).seed == old(self).seed,
            final(self).total_len == old(self).total_len,
            final(self).v1 == old(self).v1,
            final(self).v2 == old(self).v2,
            final(self).v3 == old(self).v3,
            final(self).v4 == old(self).v4,
            final(self).mem_size == old(self).mem_size,
            final(self).history == old(self).history,
    {
        let dlen = data.len();
        let mut i: usize = 0;
        while i < count
            invariant
                i <= count,
                at + count <= 16,
                from + count <= dlen,
                dlen == data@.len(),
                self.mem@.len() == 16,
                forall|j: int|
                    0 <= j < 16 ==> self.mem@[j] == (if at <= j < at + i {
                        data@[from + (j - at)]
                    } else {
                        old(self).mem@[j]
                    }),
                self.seed == old(self).seed,
                self.total_len == old(self).total_len,
                self.v1 == old(self).v1,
                self.v2 == old(self).v2,
                self.v3 == old(self).v3,
                self.v4 == old(self).v4,
                self.mem_size == old(self).mem_size,
                self.history == old(self).history,
            decreases count - i,
        {
            self.mem.set(at + i, data[from + i]);
            i += 1;
        }
    }

    /// Append `data` to the hashed stream.
    #[verifier::rlimit(100)]
    pub fn write(&mut self, data: &[u8])
        requires
            old(self).wf(),
            old(self).stream().len() + data@.len() < 0x1_0000_0000_0000_0000,
        ensures
            final(self).wf(),
            final(self).stream() == old(self).stream() + data@,
            final(self).seed_spec() == old(self).seed_spec(),
    {
        let ghost s0 = self.history@;
        let ghost s1 = s0 + data@;
        let ghost n0 = s0.len() as int;
        let ghost body0 = n0 - (n0 % 16);

        if data.len() < STRIPE_LEN - self.mem_size {
            // Everything still fits in the pending buffer.
            let m = self.mem_size;
            self.stash(m, data, 0, data.len());
            self.mem_size = m + data.len();
            self.total_len = self.total_len + (data.len() as u64);
            self.history = Ghost(s1);
            proof {
                let n1 = s1.len() as int;
                assert(n1 % 16 == n0 % 16 + data@.len()) by {
                    lemma_mod_adds(n0, data@.len() as int, 16);
                    lemma_small_mod(data@.len() as nat, 16);
                }
                lemma_absorb_range_frame(init_lanes(self.seed), s0, s1, 0, body0);
            }
            return;
        }

        // At least one full stripe becomes available.
        self.total_len = self.total_len + (data.len() as u64);
        self.history = Ghost(s1);
        let mut pos: usize = 0;
        let mut v = (self.v1, self.v2, self.v3, self.v4);
        proof {
            lemma_absorb_range_frame(init_lanes(self.seed), s0, s1, 0, body0);
        }

        if self.mem_size > 0 {
            let m = self.mem_size;
            let fill = STRIPE_LEN - m;
            self.stash(m, data, 0, fill);
            v = absorb_block(v, self.mem.as_slice(), 0);
            proof {
                let l0 = absorb_range(init_lanes(self.seed), s1, 0, body0);
                assert(absorb_one_at(l0, self.mem@, 0) == absorb_one_at(l0, s1, body0));
                lemma_absorb_range_snoc(init_lanes(self.seed), s1, 0, body0);
            }
            self.mem_size = 0;
            pos = fill;
            proof {
                lemma_mod_adds(body0, 16, 16);
                lemma_mod_self_0(16);
                assert((s0.len() + pos) % 16 == 0);
            }
        }

        let ghost seed = self.seed;
        let ghost old_hist = self.history@;
        let ghost old_total = self.total_len;
        let dlen = data.len();
        while dlen - pos >= STRIPE_LEN
            invariant
                pos <= dlen,
                dlen == data@.len(),
                (s0.len() + pos) % 16 == 0,
                s1 == s0 + data@,
                self.seed == seed,
                self.history@ == old_hist,
                self.total_len == old_total,
                self.mem@.len() == 16,
                self.mem_size == 0,
                (Lanes { v1: v.0, v2: v.1, v3: v.2, v4: v.3 }) == absorb_range(
                    init_lanes(seed),
                    s1,
                    0,
                    s0.len() + pos,
                ),
            decreases dlen - pos,
        {
            let ghost done: int = s0.len() + pos;
            v = absorb_block(v, data, pos);
            proof {
                let l0 = absorb_range(init_lanes(seed), s1, 0, done);
                assert(absorb_one_at(l0, data@, pos as int) == absorb_one_at(l0, s1, done));
                lemma_absorb_range_snoc(init_lanes(seed), s1, 0, done);
                lemma_mod_adds(done, 16, 16);
                lemma_mod_self_0(16);
            }
            pos = pos + STRIPE_LEN;
        }

        self.v1 = v.0;
        self.v2 = v.1;
        self.v3 = v.2;
        self.v4 = v.3;

        let rem = data.len() - pos;
        self.stash(0, data, pos, rem);
        self.mem_size = rem;

        proof {
            let n1 = s1.len() as int;
            let done: int = s0.len() + pos;
            assert(n1 == done + rem);
            assert(n1 % 16 == rem) by {
                lemma_mod_adds(done, rem as int, 16);
                lemma_small_mod(rem as nat, 16);
            }
            assert(n1 - (n1 % 16) == done);
        }
    }

    /// Finalize and return the 32-bit digest.
    #[verifier::rlimit(100)]
    pub fn finish_32(&self) -> (r: u32)
        requires
            self.wf(),
        ensures
            r == spec_xxh32(self.seed_spec(), self.stream()),
    {
        let ghost hist = self.history@;
        let ghost n = hist.len() as int;
        let ghost body = n - (n % 16);

        let mut hash: u32;
        if self.total_len >= 16 {
            hash = rotl(self.v1, 1).wrapping_add(rotl(self.v2, 7)).wrapping_add(
                rotl(self.v3, 12),
            ).wrapping_add(rotl(self.v4, 18));
        } else {
            hash = self.seed.wrapping_add(PRIME32_5);
        }
        proof {
            let tl = self.total_len;
            assert(tl as u32 == tl % 0x1_0000_0000) by (bit_vector);
        }
        hash = hash.wrapping_add(#[verifier::truncate] (self.total_len as u32));

        let ghost h1 = hash;
        let msize = self.mem_size;
        let mut i: usize = 0;
        while msize - i >= 4
            invariant
                i <= msize,
                msize == self.mem_size,
                self.mem@.len() == 16,
                msize < 16,
                msize == n - body,
                n == hist.len(),
                body == n - (n % 16),
                hist == self.history@,
                forall|j: int| 0 <= j < msize ==> self.mem@[j] == hist[body + j],
                fold_range(hash, hist, body + i, n) == fold_range(h1, hist, body, n),
            decreases msize - i,
        {
            let lane = read_le_u32(self.mem.as_slice(), i);
            let ghost prev = hash;
            hash = rotl(hash.wrapping_add(lane.wrapping_mul(PRIME32_3)), 17).wrapping_mul(
                PRIME32_4,
            );
            proof {
                assert(hash == tail_round4(prev, lane)) by {
                    reveal(tail_round4);
                }
            }
            i += 4;
        }
        while i < msize
            invariant
                i <= msize,
                msize - i < 4,
                msize == self.mem_size,
                self.mem@.len() == 16,
                msize < 16,
                msize == n - body,
                n == hist.len(),
                body == n - (n % 16),
                hist == self.history@,
                forall|j: int| 0 <= j < msize ==> self.mem@[j] == hist[body + j],
                fold_range(hash, hist, body + i, n) == fold_range(h1, hist, body, n),
            decreases msize - i,
        {
            let b = self.mem[i];
            let ghost prev = hash;
            hash = rotl(hash.wrapping_add((b as u32).wrapping_mul(PRIME32_5)), 11).wrapping_mul(
                PRIME32_1,
            );
            proof {
                assert(hash == tail_round1(prev, b)) by {
                    reveal(tail_round1);
                }
                assert(self.mem@[i as int] == hist[body + i]);
                assert(fold_range(prev, hist, body + i, n) == fold_range(
                    tail_round1(prev, hist[body + i]),
                    hist,
                    body + i + 1,
                    n,
                ));
            }
            i += 1;
        }
        avalanche(hash)
    }
}

impl Default for XxHash32 {
    /// A hasher seeded with zero.
    fn default() -> (r: Self)
        ensures
            r.wf(),
            r.seed_spec() == 0,
            r.stream() == Seq::<u8>::empty(),
    {
        Self::with_seed(0)
    }
}

} // verus!
