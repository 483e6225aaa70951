//! The LZ4 block decoder and its instrumentation.
//!
//! `decode_engine` runs the token-stream loop of `format::decode_from` and
//! proves, token by token, that what it writes and what it counts are
//! exactly what that definition says.  The public entry points wrap the
//! engine: plain decompression, decompression into a caller-owned buffer,
//! the size-prepended variant, a per-call profile of copy strategies, and
//! the read-only byte-mix report.

use vstd::prelude::*;

use crate::block::format::{append_run, decode_from, ext_len, match_extend, mix_add_literal,
    mix_add_match, mix_zero, read_len_code, DecompressError, MixCounts};

verus! {

/// `v` clamped to the `usize` range (saturating length arithmetic).
pub open spec fn sat_usize(v: int) -> int {
    if v > usize::MAX {
        usize::MAX as int
    } else {
        v
    }
}

/// `v` clamped to the `u64` range (saturating counters).
pub open spec fn sat_u64(v: int) -> u64 {
    if v > u64::MAX {
        u64::MAX
    } else if v < 0 {
        0
    } else {
        v as u64
    }
}

/// Resolve a length code the way the decoder does: a base below 15 stands
/// alone; base 15 pulls in extension bytes, each added to the total, any
/// byte below 255 ending the run.  The running total saturates at
/// `usize::MAX`; resolved lengths that large are rejected by the bounds
/// checks that follow every call.
pub fn read_varint_len(input: &[u8], ip: &mut usize, base: usize) -> (r: Option<usize>)
    requires
        *old(ip) <= input@.len(),
        base <= 15,
    ensures
        read_len_code(input@, *old(ip) as int, base as int) is None ==> r is None,
        read_len_code(input@, *old(ip) as int, base as int) matches Some(v) ==> (r == Some(
            sat_usize(v.0) as usize,
        ) && *final(ip) == v.1),
{
    if base != 15 {
        return Some(base);
    }
    let len = input.len();
    let ghost ip0: int = *ip as int;
    let mut acc: usize = 15;
    let ghost mut acc_true: int = 15;
    loop
        invariant
            base == 15,
            ip0 <= *ip <= len,
            ip0 == *old(ip) as int,
            len == input@.len(),
            acc == sat_usize(acc_true),
            acc_true >= 15,
            ext_len(input@, ip0, 15) == ext_len(input@, *ip as int, acc_true),
        decreases len - *ip,
    {
        if *ip >= len {
            proof {
                assert(ext_len(input@, *ip as int, acc_true) is None);
            }
            return None;
        }
        let idx = *ip;
        let b = input[idx];
        *ip = idx + 1;
        if b == 255 {
            proof {
                assert(ext_len(input@, idx as int, acc_true) == ext_len(
                    input@,
                    idx as int + 1,
                    acc_true + 255,
                ));
                acc_true = acc_true + 255;
            }
            acc = acc.saturating_add(255);
        } else {
            proof {
                assert(ext_len(input@, idx as int, acc_true) == Some(
                    (acc_true + b, idx as int + 1),
                ));
            }
            let r = acc.saturating_add(b as usize);
            proof {
                assert(r == sat_usize(acc_true + b));
            }
            return Some(r);
        }
    }
}

/// A 16-bit little-endian offset.
fn read_le16(input: &[u8], ip: usize) -> (r: usize)
    requires
        ip + 2 <= input@.len(),
    ensures
        r == input@[ip as int] + 256 * (input@[ip as int + 1] as int),
        r <= 65535,
{
    let _len = input.len();
    (input[ip] as usize) + 256 * (input[ip + 1] as usize)
}

/// Copy `count` bytes of `input` starting at `ip` into `out[op..]`.
fn copy_literals(out: &mut Vec<u8>, op: usize, input: &[u8], ip: usize, count: usize)
    requires
        op + count <= old(out)@.len(),
        ip + count <= input@.len(),
    ensures
        final(out)@.len() == old(out)@.len(),
        forall|j: int| 0 <= j < op ==> final(out)@[j] == old(out)@[j],
        forall|k: int| 0 <= k < count ==> #[trigger] final(out)@[op + k] == input@[ip + k],
        forall|j: int| op + count <= j < old(out)@.len() ==> final(out)@[j] == old(out)@[j],
{
    let ilen = input.len();
    let olen = out.len();
    let mut k: usize = 0;
    while k < count
        invariant
            k <= count,
            olen == out@.len(),
            op + count <= out@.len(),
            ip + count <= ilen,
            ilen == input@.len(),
            out@.len() == old(out)@.len(),
            forall|j: int| 0 <= j < op ==> out@[j] == old(out)@[j],
            forall|j: int| 0 <= j < k ==> #[trigger] out@[op + j] == input@[ip + j],
            forall|j: int| op + count <= j < out@.len() ==> out@[j] == old(out)@[j],
        decreases count - k,
    {
        let b = input[ip + k];
        out.set(op + k, b);
        k += 1;
    }
}

/// Materialize a match in place: copy `count` bytes into `out[op..]`, each
/// read `offset` bytes behind the write position.  A forward byte walk is
/// overlap-safe: every read lands on a byte already written, so small
/// offsets repeat their pattern exactly as `match_extend` specifies.
fn copy_match(out: &mut Vec<u8>, op: usize, offset: usize, count: usize)
    requires
        op + count <= old(out)@.len(),
        1 <= offset <= op,
    ensures
        final(out)@.len() == old(out)@.len(),
        final(out)@.take(op + count) == match_extend(
            old(out)@.take(op as int),
            offset as int,
            count as int,
        ),
        forall|j: int| op + count <= j < old(out)@.len() ==> final(out)@[j] == old(out)@[j],
{
    let ghost base = old(out)@.take(op as int);
    let olen = out.len();
    let mut k: usize = 0;
    while k < count
        invariant
            k <= count,
            olen == out@.len(),
            op + count <= out@.len(),
            1 <= offset <= op,
            out@.len() == old(out)@.len(),
            base == old(out)@.take(op as int),
            out@.take(op + k) == match_extend(base, offset as int, k as int),
            forall|j: int| op + count <= j < out@.len() ==> out@[j] == old(out)@[j],
        decreases count - k,
    {
        let b = out[op - offset + k];
        proof {
            crate::block::format::lemma_match_extend_basic(base, offset as int, k as int);
            assert(out@.take(op + k)[op - offset + k] == out@[op - offset + k]);
        }
        out.set(op + k, b);
        proof {
            crate::block::format::lemma_match_extend_step(base, offset as int, k as int);
            let o = match_extend(base, offset as int, k as int);
            assert(out@.take(op + k + 1) =~= o.push(o[o.len() - offset]));
        }
        k += 1;
    }
}


/// Per-call instrumentation counters, one per `MixCounts` field.
struct Counters {
    literal_bytes: u64,
    match_bytes: u64,
    overlap_path_bytes: u64,
    non_overlap_path_bytes: u64,
    off_1_bytes: u64,
    off_2_bytes: u64,
    off_3_7_bytes: u64,
    off_8_15_bytes: u64,
    off_ge_16_bytes: u64,
    fast_token_hits: u64,
    dup_nonoverlap_wild: u64,
    dup_near_end_exact_nonoverlap: u64,
    dup_overlap_small: u64,
    dup_overlap_large_offset_chunk: u64,
    dup_overlap_fallback_byte: u64,
}

/// All spec counters are non-negative (they only ever grow from zero).
spec fn mix_nonneg(m: MixCounts) -> bool {
    &&& m.literal_bytes >= 0
    &&& m.match_bytes >= 0
    &&& m.overlap_path_bytes >= 0
    &&& m.non_overlap_path_bytes >= 0
    &&& m.off_1_bytes >= 0
    &&& m.off_2_bytes >= 0
    &&& m.off_3_7_bytes >= 0
    &&& m.off_8_15_bytes >= 0
    &&& m.off_ge_16_bytes >= 0
    &&& m.fast_token_hits >= 0
    &&& m.dup_nonoverlap_wild >= 0
    &&& m.dup_near_end_exact_nonoverlap >= 0
    &&& m.dup_overlap_small >= 0
    &&& m.dup_overlap_large_offset_chunk >= 0
    &&& m.dup_overlap_fallback_byte >= 0
}

/// The executable counters hold the saturated value of every spec counter.
spec fn counters_match(c: Counters, m: MixCounts) -> bool {
    &&& c.literal_bytes == sat_u64(m.literal_bytes)
    &&& c.match_bytes == sat_u64(m.match_bytes)
    &&& c.overlap_path_bytes == sat_u64(m.overlap_path_bytes)
    &&& c.non_overlap_path_bytes == sat_u64(m.non_overlap_path_bytes)
    &&& c.off_1_bytes == sat_u64(m.off_1_bytes)
    &&& c.off_2_bytes == sat_u64(m.off_2_bytes)
    &&& c.off_3_7_bytes == sat_u64(m.off_3_7_bytes)
    &&& c.off_8_15_bytes == sat_u64(m.off_8_15_bytes)
    &&& c.off_ge_16_bytes == sat_u64(m.off_ge_16_bytes)
    &&& c.fast_token_hits == sat_u64(m.fast_token_hits)
    &&& c.dup_nonoverlap_wild == sat_u64(m.dup_nonoverlap_wild)
    &&& c.dup_near_end_exact_nonoverlap == sat_u64(m.dup_near_end_exact_nonoverlap)
    &&& c.dup_overlap_small == sat_u64(m.dup_overlap_small)
    &&& c.dup_overlap_large_offset_chunk == sat_u64(m.dup_overlap_large_offset_chunk)
    &&& c.dup_overlap_fallback_byte == sat_u64(m.dup_overlap_fallback_byte)
}

/// Run the token-stream loop over `input`, writing into `output` (whose
/// length declares the expected decompressed size), and count every decoded
/// byte and copy-strategy decision.
#[verifier::loop_isolation(false)]
#[verifier::rlimit(100)]
fn decode_engine(input: &[u8], output: &mut Vec<u8>) -> (r: (
    Result<usize, DecompressError>,
    Counters,
))
    ensures
        final(output)@.len() == old(output)@.len(),
        ({
            let d = decode_from(input@, 0, Seq::empty(), old(output)@.len() as int, mix_zero());
            match d.result {
                Ok(s) => r.0 matches Ok(w) && w == old(output)@.len() && final(output)@ == s
                    && counters_match(r.1, d.mix) && mix_nonneg(d.mix),
                Err(e) => r.0 == Err::<usize, DecompressError>(e),
            }
        }),
{
    let ilen = input.len();
    let target = output.len();
    let ghost tgt = target as int;
    let mut ip: usize = 0;
    let mut op: usize = 0;
    let mut c = Counters {
        literal_bytes: 0,
        match_bytes: 0,
        overlap_path_bytes: 0,
        non_overlap_path_bytes: 0,
        off_1_bytes: 0,
        off_2_bytes: 0,
        off_3_7_bytes: 0,
        off_8_15_bytes: 0,
        off_ge_16_bytes: 0,
        fast_token_hits: 0,
        dup_nonoverlap_wild: 0,
        dup_near_end_exact_nonoverlap: 0,
        dup_overlap_small: 0,
        dup_overlap_large_offset_chunk: 0,
        dup_overlap_fallback_byte: 0,
    };
    let ghost mut m = mix_zero();
    proof {
        assert(output@.take(0int) =~= Seq::<u8>::empty());
    }

    while ip < ilen
        invariant
            ip <= ilen,
            op <= target,
            output@.len() == tgt,
            mix_nonneg(m),
            counters_match(c, m),
            decode_from(input@, 0, Seq::empty(), tgt, mix_zero()) == decode_from(
                input@,
                ip as int,
                output@.take(op as int),
                tgt,
                m,
            ),
        decreases ilen - ip,
    {
        let ghost ip_a: int = ip as int;
        let ghost out_a: Seq<u8> = output@.take(op as int);
        let ghost m_a = m;

        let token = input[ip];
        ip += 1;
        let lit_code = (token / 16) as usize;
        let match_code = (token % 16) as usize;

        let lit_opt = read_varint_len(input, &mut ip, lit_code);
        if lit_opt.is_none() {
            proof {
                assert(decode_from(input@, ip_a, out_a, tgt, m_a).result == Err::<
                    Seq<u8>,
                    DecompressError,
                >(DecompressError::CorruptInput));
            }
            return (Err(DecompressError::CorruptInput), c);
        }
        let lit = lit_opt.unwrap();
        let ghost lr = read_len_code(input@, ip_a + 1, lit_code as int).unwrap();
        proof {
            crate::block::format::lemma_read_len_bounds(input@, ip_a + 1, lit_code as int);
            assert(ip as int == lr.1);
            assert(ip <= ilen);
        }

        if lit > ilen - ip {
            proof {
                assert(ilen - ip < usize::MAX);
                assert(lr.0 + (ip as int) > ilen);
                assert(decode_from(input@, ip_a, out_a, tgt, m_a).result == Err::<
                    Seq<u8>,
                    DecompressError,
                >(DecompressError::CorruptInput));
            }
            return (Err(DecompressError::CorruptInput), c);
        }
        proof {
            assert(ip >= 1);
            assert(lit < usize::MAX);
            assert(lr.0 == lit as int);
        }
        if lit > target - op {
            proof {
                assert(decode_from(input@, ip_a, out_a, tgt, m_a).result == Err::<
                    Seq<u8>,
                    DecompressError,
                >(DecompressError::OutputOverflow));
            }
            return (Err(DecompressError::OutputOverflow), c);
        }

        let ghost ip2: int = ip as int;
        copy_literals(output, op, input, ip, lit);
        c.literal_bytes = c.literal_bytes.saturating_add(lit as u64);
        proof {
            m = mix_add_literal(m_a, lit as int);
        }
        ip += lit;
        op += lit;
        proof {
            crate::block::format::lemma_append_run(out_a, input@, ip2, lit as int);
            let run = append_run(out_a, input@, ip2, lit as int);
            assert(out_a.len() == op - lit);
            assert forall|j: int| 0 <= j < op as int implies output@[j] == run[j] by {
                if j < op - lit {
                    assert(run[j] == out_a[j]);
                    assert(out_a[j] == output@[j]);
                } else {
                    let k = j - (op - lit);
                    assert(output@[(op - lit) + k] == input@[ip2 + k]);
                    assert(run[out_a.len() + k] == input@[ip2 + k]);
                }
            }
            assert(output@.take(op as int) =~= run);
        }
        let ghost out_b: Seq<u8> = output@.take(op as int);

        if ip == ilen {
            if op == target {
                proof {
                    assert(decode_from(input@, ip_a, out_a, tgt, m_a) == (
                    crate::block::format::DecodeOutcome {
                        result: Ok(out_b),
                        mix: m,
                    }));
                    assert(output@.take(op as int) =~= output@);
                }
                return (Ok(op), c);
            } else {
                proof {
                    assert(decode_from(input@, ip_a, out_a, tgt, m_a).result == Err::<
                        Seq<u8>,
                        DecompressError,
                    >(DecompressError::LengthMismatch));
                }
                return (Err(DecompressError::LengthMismatch), c);
            }
        }
        if ilen - ip < 2 {
            proof {
                assert(decode_from(input@, ip_a, out_a, tgt, m_a).result == Err::<
                    Seq<u8>,
                    DecompressError,
                >(DecompressError::CorruptInput));
            }
            return (Err(DecompressError::CorruptInput), c);
        }
        let offset = read_le16(input, ip);
        ip += 2;
        if offset == 0 || offset > op {
            proof {
                assert(decode_from(input@, ip_a, out_a, tgt, m_a).result == Err::<
                    Seq<u8>,
                    DecompressError,
                >(DecompressError::CorruptInput));
            }
            return (Err(DecompressError::CorruptInput), c);
        }

        let ml_opt = read_varint_len(input, &mut ip, match_code);
        if ml_opt.is_none() {
            proof {
                assert(decode_from(input@, ip_a, out_a, tgt, m_a).result == Err::<
                    Seq<u8>,
                    DecompressError,
                >(DecompressError::CorruptInput));
            }
            return (Err(DecompressError::CorruptInput), c);
        }
        let mlb = ml_opt.unwrap();
        let ghost mr = read_len_code(input@, ip2 + lit + 2, match_code as int).unwrap();
        proof {
            crate::block::format::lemma_read_len_bounds(input@, ip2 + lit + 2, match_code as int);
            assert(ip as int == mr.1);
            assert(ip <= ilen);
            assert(mr.0 >= 0);
        }
        let rem = target - op;
        if rem < 4 || mlb > rem - 4 {
            proof {
                assert(rem < usize::MAX);
                assert(out_b.len() + (mr.0 + 4) > tgt);
                assert(decode_from(input@, ip_a, out_a, tgt, m_a).result == Err::<
                    Seq<u8>,
                    DecompressError,
                >(DecompressError::OutputOverflow));
            }
            return (Err(DecompressError::OutputOverflow), c);
        }
        proof {
            assert(mlb < usize::MAX);
            assert(mr.0 == mlb as int);
        }
        let ml = mlb + 4;

        copy_match(output, op, offset, ml);
        proof {
            crate::block::format::lemma_match_extend_basic(out_b, offset as int, ml as int);
            assert(output@.take(op as int) =~= out_b);
        }

        // Classify the copy strategy exactly as `mix_add_match` does.
        c.match_bytes = c.match_bytes.saturating_add(ml as u64);
        if offset == 1 {
            c.off_1_bytes = c.off_1_bytes.saturating_add(ml as u64);
        } else if offset == 2 {
            c.off_2_bytes = c.off_2_bytes.saturating_add(ml as u64);
        } else if offset < 8 {
            c.off_3_7_bytes = c.off_3_7_bytes.saturating_add(ml as u64);
        } else if offset < 16 {
            c.off_8_15_bytes = c.off_8_15_bytes.saturating_add(ml as u64);
        } else {
            c.off_ge_16_bytes = c.off_ge_16_bytes.saturating_add(ml as u64);
        }
        let wild = offset >= 15 && offset - 15 >= ml && rem >= 15 && rem - 15 >= ml;
        if !wild {
            if offset >= ml {
                c.non_overlap_path_bytes = c.non_overlap_path_bytes.saturating_add(ml as u64);
                c.dup_near_end_exact_nonoverlap = c.dup_near_end_exact_nonoverlap.saturating_add(
                    1,
                );
            } else if offset == 1 || offset == 2 || offset == 4 || offset == 8 {
                c.overlap_path_bytes = c.overlap_path_bytes.saturating_add(ml as u64);
                c.dup_overlap_small = c.dup_overlap_small.saturating_add(1);
            } else if offset >= 16 {
                c.overlap_path_bytes = c.overlap_path_bytes.saturating_add(ml as u64);
                c.dup_overlap_large_offset_chunk = c.dup_overlap_large_offset_chunk.saturating_add(
                    1,
                );
            } else {
                c.overlap_path_bytes = c.overlap_path_bytes.saturating_add(ml as u64);
                c.dup_overlap_fallback_byte = c.dup_overlap_fallback_byte.saturating_add(1);
            }
        } else {
            c.non_overlap_path_bytes = c.non_overlap_path_bytes.saturating_add(ml as u64);
            c.dup_nonoverlap_wild = c.dup_nonoverlap_wild.saturating_add(1);
        }
        if lit_code < 15 && match_code < 15 {
            c.fast_token_hits = c.fast_token_hits.saturating_add(1);
        }

        proof {
            m = mix_add_match(
                m,
                lit_code as int,
                match_code as int,
                offset as int,
                ml as int,
                rem as int,
            );
        }
        op += ml;
        proof {
            assert(output@.take(op as int) == match_extend(out_b, offset as int, ml as int));
            assert(decode_from(input@, ip_a, out_a, tgt, m_a) == decode_from(
                input@,
                ip as int,
                output@.take(op as int),
                tgt,
                m,
            ));
            assert(counters_match(c, m));
        }
    }

    if op == target {
        proof {
            assert(output@.take(op as int) =~= output@);
            assert(decode_from(input@, ip as int, output@.take(op as int), tgt, m) == (
            crate::block::format::DecodeOutcome {
                result: Ok(output@),
                mix: m,
            }));
        }
        (Ok(op), c)
    } else {
        proof {
            assert(decode_from(input@, ip as int, output@.take(op as int), tgt, m).result == Err::<
                Seq<u8>,
                DecompressError,
            >(DecompressError::LengthMismatch));
        }
        (Err(DecompressError::LengthMismatch), c)
    }
}


/// Decompress `input` into `output`, whose length declares the expected
/// decompressed size.  On success the whole buffer is rewritten with the
/// decoded bytes and the written length (the buffer's length) is returned;
/// on failure the buffer's length is unchanged but its contents are
/// unspecified and must be discarded.
pub fn decompress_into(input: &[u8], output: &mut Vec<u8>) -> (r: Result<usize, DecompressError>)
    ensures
        final(output)@.len() == old(output)@.len(),
        crate::block::format::spec_decompress(input@, old(output)@.len() as int) matches Ok(s)
            ==> (r matches Ok(w) && w == old(output)@.len() && final(output)@ == s),
        crate::block::format::spec_decompress(input@, old(output)@.len() as int) matches Err(e)
            ==> r == Err::<usize, DecompressError>(e),
{
    let (r, _) = decode_engine(input, output);
    r
}

/// Process-profile of the decoder: how many bytes each copy strategy
/// served and how often each strategy ran.  The caller owns the profile and
/// resets it between measurement windows; sharing one profile across
/// concurrent decodes is the caller's responsibility to avoid.
#[derive(Clone, Copy, Debug, PartialEq, Eq, Structural)]
pub struct DecodeProfile {
    pub fast_token_hits: u64,
    pub duplicate_nonoverlap_wild: u64,
    pub duplicate_near_end_exact_nonoverlap: u64,
    pub duplicate_overlap_small_u64: u64,
    pub duplicate_overlap_large_offset_chunk: u64,
    pub duplicate_overlap_fallback_byte: u64,
    pub copy_from_dict_calls: u64,
    pub literal_bytes: u64,
    pub match_bytes: u64,
}

/// The profile as it stands after a decode that accumulated `m`.
pub open spec fn profile_after(p: DecodeProfile, m: MixCounts) -> DecodeProfile {
    (DecodeProfile {
        fast_token_hits: sat_u64(p.fast_token_hits + m.fast_token_hits),
        duplicate_nonoverlap_wild: sat_u64(p.duplicate_nonoverlap_wild + m.dup_nonoverlap_wild),
        duplicate_near_end_exact_nonoverlap: sat_u64(
            p.duplicate_near_end_exact_nonoverlap + m.dup_near_end_exact_nonoverlap,
        ),
        duplicate_overlap_small_u64: sat_u64(p.duplicate_overlap_small_u64 + m.dup_overlap_small),
        duplicate_overlap_large_offset_chunk: sat_u64(
            p.duplicate_overlap_large_offset_chunk + m.dup_overlap_large_offset_chunk,
        ),
        duplicate_overlap_fallback_byte: sat_u64(
            p.duplicate_overlap_fallback_byte + m.dup_overlap_fallback_byte,
        ),
        copy_from_dict_calls: p.copy_from_dict_calls,
        literal_bytes: sat_u64(p.literal_bytes + m.literal_bytes),
        match_bytes: sat_u64(p.match_bytes + m.match_bytes),
    })
}

impl DecodeProfile {
    /// A profile with every counter at zero.
    pub fn new() -> (r: Self)
        ensures
            r == Self::zeroed(),
    {
        DecodeProfile {
            fast_token_hits: 0,
            duplicate_nonoverlap_wild: 0,
            duplicate_near_end_exact_nonoverlap: 0,
            duplicate_overlap_small_u64: 0,
            duplicate_overlap_large_offset_chunk: 0,
            duplicate_overlap_fallback_byte: 0,
            copy_from_dict_calls: 0,
            literal_bytes: 0,
            match_bytes: 0,
        }
    }

    /// All nine counters at zero.
    pub open spec fn zeroed() -> Self {
        (DecodeProfile {
            fast_token_hits: 0,
            duplicate_nonoverlap_wild: 0,
            duplicate_near_end_exact_nonoverlap: 0,
            duplicate_overlap_small_u64: 0,
            duplicate_overlap_large_offset_chunk: 0,
            duplicate_overlap_fallback_byte: 0,
            copy_from_dict_calls: 0,
            literal_bytes: 0,
            match_bytes: 0,
        })
    }

    /// Zero every counter, opening a fresh measurement window.
    pub fn reset(&mut self)
        ensures
            *final(self) == Self::zeroed(),
    {
        *self = Self::new();
    }

    /// A snapshot of the counters, leaving them untouched.
    pub fn read(&self) -> (r: Self)
        ensures
            r == *self,
    {
        *self
    }
}

/// `decompress_into`, also accumulating into `profile` what the decode did:
/// on success every counter grows (saturating) by exactly what the token
/// stream contains; on failure counters never shrink and the dictionary
/// counter is untouched.
pub fn decompress_into_with_profile(
    input: &[u8],
    output: &mut Vec<u8>,
    profile: &mut DecodeProfile,
) -> (r: Result<usize, DecompressError>)
    ensures
        final(output)@.len() == old(output)@.len(),
        ({
            let d = decode_from(input@, 0, Seq::empty(), old(output)@.len() as int, mix_zero());
            match d.result {
                Ok(s) => r matches Ok(w) && w == old(output)@.len() && final(output)@ == s
                    && *final(profile) == profile_after(*old(profile), d.mix),
                Err(e) => r == Err::<usize, DecompressError>(e),
            }
        }),
        final(profile).fast_token_hits >= old(profile).fast_token_hits,
        final(profile).duplicate_nonoverlap_wild >= old(profile).duplicate_nonoverlap_wild,
        final(profile).duplicate_near_end_exact_nonoverlap >= old(
            profile,
        ).duplicate_near_end_exact_nonoverlap,
        final(profile).duplicate_overlap_small_u64 >= old(profile).duplicate_overlap_small_u64,
        final(profile).duplicate_overlap_large_offset_chunk >= old(
            profile,
        ).duplicate_overlap_large_offset_chunk,
        final(profile).duplicate_overlap_fallback_byte >= old(
            profile,
        ).duplicate_overlap_fallback_byte,
        final(profile).copy_from_dict_calls == old(profile).copy_from_dict_calls,
        final(profile).literal_bytes >= old(profile).literal_bytes,
        final(profile).match_bytes >= old(profile).match_bytes,
{
    let (r, c) = decode_engine(input, output);
    profile.fast_token_hits = profile.fast_token_hits.saturating_add(c.fast_token_hits);
    profile.duplicate_nonoverlap_wild = profile.duplicate_nonoverlap_wild.saturating_add(
        c.dup_nonoverlap_wild,
    );
    profile.duplicate_near_end_exact_nonoverlap =
        profile.duplicate_near_end_exact_nonoverlap.saturating_add(c.dup_near_end_exact_nonoverlap);
    profile.duplicate_overlap_small_u64 = profile.duplicate_overlap_small_u64.saturating_add(
        c.dup_overlap_small,
    );
    profile.duplicate_overlap_large_offset_chunk =
        profile.duplicate_overlap_large_offset_chunk.saturating_add(
        c.dup_overlap_large_offset_chunk,
    );
    profile.duplicate_overlap_fallback_byte =
        profile.duplicate_overlap_fallback_byte.saturating_add(c.dup_overlap_fallback_byte);
    profile.literal_bytes = profile.literal_bytes.saturating_add(c.literal_bytes);
    profile.match_bytes = profile.match_bytes.saturating_add(c.match_bytes);
    r
}

/// Decompress `input`, allocating a buffer for exactly `expected_size`
/// decoded bytes.
pub fn decompress(input: &[u8], expected_size: usize) -> (r: Result<Vec<u8>, DecompressError>)
    ensures
        crate::block::format::spec_decompress(input@, expected_size as int) matches Ok(s) ==> (
        r matches Ok(v) && v@ == s),
        crate::block::format::spec_decompress(input@, expected_size as int) matches Err(e) ==> r
            == Err::<Vec<u8>, DecompressError>(e),
{
    let mut output: Vec<u8> = Vec::new();
    let mut i: usize = 0;
    while i < expected_size
        invariant
            output@.len() == i,
            i <= expected_size,
        decreases expected_size - i,
    {
        output.push(0);
        i += 1;
    }
    match decompress_into(input, &mut output) {
        Ok(_) => Ok(output),
        Err(e) => Err(e),
    }
}

/// What `decompress_size_prepended` decodes: the first four bytes give the
/// decompressed length little-endian, the rest is the block.
pub open spec fn spec_decompress_prepended(input: Seq<u8>) -> Result<Seq<u8>, DecompressError> {
    if input.len() < 4 {
        Err(DecompressError::CorruptInput)
    } else {
        crate::block::format::spec_decompress(
            input.skip(4),
            crate::hash::le4(input[0], input[1], input[2], input[3]) as int,
        )
    }
}

/// Decompress a block whose four-byte little-endian decompressed length is
/// prepended to it.
pub fn decompress_size_prepended(input: &[u8]) -> (r: Result<Vec<u8>, DecompressError>)
    ensures
        spec_decompress_prepended(input@) matches Ok(s) ==> (r matches Ok(v) && v@ == s),
        spec_decompress_prepended(input@) matches Err(e) ==> r == Err::<Vec<u8>, DecompressError>(
            e,
        ),
{
    let len = input.len();
    if len < 4 {
        return Err(DecompressError::CorruptInput);
    }
    let n = (input[0] as u32) + 256 * (input[1] as u32) + 65536 * (input[2] as u32) + 16777216 * (
    input[3] as u32);
    let expected = n as usize;
    let rest = &input[4..len];
    proof {
        assert(rest@ =~= input@.skip(4));
        assert(n == crate::hash::le4(input@[0], input@[1], input@[2], input@[3]));
    }
    decompress(rest, expected)
}

/// The byte-mix report of one block: where every decoded byte would come
/// from, bucketed by offset and by overlap behaviour.  `None` exactly when
/// the block does not decode to `output_len` bytes.
#[derive(Clone, Copy, Debug, PartialEq, Eq, Structural)]
pub struct DecodeMix {
    pub literal_bytes: u64,
    pub match_bytes: u64,
    pub overlap_path_bytes: u64,
    pub non_overlap_path_bytes: u64,
    pub off_1_bytes: u64,
    pub off_2_bytes: u64,
    pub off_3_7_bytes: u64,
    pub off_8_15_bytes: u64,
    pub off_ge_16_bytes: u64,
}

impl Default for DecodeMix {
    /// All nine fields at zero.
    fn default() -> (r: Self)
        ensures
            r.literal_bytes == 0 && r.match_bytes == 0 && r.overlap_path_bytes == 0
                && r.non_overlap_path_bytes == 0 && r.off_1_bytes == 0 && r.off_2_bytes == 0
                && r.off_3_7_bytes == 0 && r.off_8_15_bytes == 0 && r.off_ge_16_bytes == 0,
    {
        DecodeMix {
            literal_bytes: 0,
            match_bytes: 0,
            overlap_path_bytes: 0,
            non_overlap_path_bytes: 0,
            off_1_bytes: 0,
            off_2_bytes: 0,
            off_3_7_bytes: 0,
            off_8_15_bytes: 0,
            off_ge_16_bytes: 0,
        }
    }
}

/// Replay the token stream of `input` against a declared output length and
/// report the byte mix; `None` exactly when decoding would fail.
pub fn decode_mix_for_block(input: &[u8], output_len: usize) -> (r: Option<DecodeMix>)
    ensures
        ({
            let d = decode_from(input@, 0, Seq::empty(), output_len as int, mix_zero());
            match d.result {
                Ok(_) => r matches Some(mx) && mx.literal_bytes == sat_u64(d.mix.literal_bytes)
                    && mx.match_bytes == sat_u64(d.mix.match_bytes) && mx.overlap_path_bytes
                    == sat_u64(d.mix.overlap_path_bytes) && mx.non_overlap_path_bytes == sat_u64(
                    d.mix.non_overlap_path_bytes,
                ) && mx.off_1_bytes == sat_u64(d.mix.off_1_bytes) && mx.off_2_bytes == sat_u64(
                    d.mix.off_2_bytes,
                ) && mx.off_3_7_bytes == sat_u64(d.mix.off_3_7_bytes) && mx.off_8_15_bytes
                    == sat_u64(d.mix.off_8_15_bytes) && mx.off_ge_16_bytes == sat_u64(
                    d.mix.off_ge_16_bytes,
                ),
                Err(_) => r is None,
            }
        }),
{
    let mut output: Vec<u8> = Vec::new();
    let mut i: usize = 0;
    while i < output_len
        invariant
            output@.len() == i,
            i <= output_len,
        decreases output_len - i,
    {
        output.push(0);
        i += 1;
    }
    let (r, c) = decode_engine(input, &mut output);
    match r {
        Ok(_) => Some(
            DecodeMix {
                literal_bytes: c.literal_bytes,
                match_bytes: c.match_bytes,
                overlap_path_bytes: c.overlap_path_bytes,
                non_overlap_path_bytes: c.non_overlap_path_bytes,
                off_1_bytes: c.off_1_bytes,
                off_2_bytes: c.off_2_bytes,
                off_3_7_bytes: c.off_3_7_bytes,
                off_8_15_bytes: c.off_8_15_bytes,
                off_ge_16_bytes: c.off_ge_16_bytes,
            },
        ),
        Err(_) => None,
    }
}

pub const PROFILE_COUNTER_FAST_TOKEN_HITS: u32 = 0;
pub const PROFILE_COUNTER_DUP_NONOVERLAP_WILD: u32 = 1;
pub const PROFILE_COUNTER_DUP_NEAR_END_EXACT_NONOVERLAP: u32 = 2;
pub const PROFILE_COUNTER_DUP_OVERLAP_SMALL_U64: u32 = 3;
pub const PROFILE_COUNTER_DUP_OVERLAP_LARGE_OFFSET_CHUNK: u32 = 4;
pub const PROFILE_COUNTER_DUP_OVERLAP_FALLBACK_BYTE: u32 = 5;
pub const PROFILE_COUNTER_COPY_FROM_DICT_CALLS: u32 = 6;
pub const PROFILE_COUNTER_LITERAL_BYTES: u32 = 7;
pub const PROFILE_COUNTER_MATCH_BYTES: u32 = 8;

/// The counter a numeric id selects.
pub open spec fn spec_profile_counter(p: DecodeProfile, counter_id: u32) -> u64 {
    if counter_id == PROFILE_COUNTER_FAST_TOKEN_HITS {
        p.fast_token_hits
    } else if counter_id == PROFILE_COUNTER_DUP_NONOVERLAP_WILD {
        p.duplicate_nonoverlap_wild
    } else if counter_id == PROFILE_COUNTER_DUP_NEAR_END_EXACT_NONOVERLAP {
        p.duplicate_near_end_exact_nonoverlap
    } else if counter_id == PROFILE_COUNTER_DUP_OVERLAP_SMALL_U64 {
        p.duplicate_overlap_small_u64
    } else if counter_id == PROFILE_COUNTER_DUP_OVERLAP_LARGE_OFFSET_CHUNK {
        p.duplicate_overlap_large_offset_chunk
    } else if counter_id == PROFILE_COUNTER_DUP_OVERLAP_FALLBACK_BYTE {
        p.duplicate_overlap_fallback_byte
    } else if counter_id == PROFILE_COUNTER_COPY_FROM_DICT_CALLS {
        p.copy_from_dict_calls
    } else if counter_id == PROFILE_COUNTER_LITERAL_BYTES {
        p.literal_bytes
    } else if counter_id == PROFILE_COUNTER_MATCH_BYTES {
        p.match_bytes
    } else {
        0
    }
}

/// Select one profile counter by its numeric id; unknown ids read zero.
pub fn profile_counter_value(profile: &DecodeProfile, counter_id: u32) -> (r: u64)
    ensures
        r == spec_profile_counter(*profile, counter_id),
{
    if counter_id == PROFILE_COUNTER_FAST_TOKEN_HITS {
        profile.fast_token_hits
    } else if counter_id == PROFILE_COUNTER_DUP_NONOVERLAP_WILD {
        profile.duplicate_nonoverlap_wild
    } else if counter_id == PROFILE_COUNTER_DUP_NEAR_END_EXACT_NONOVERLAP {
        profile.duplicate_near_end_exact_nonoverlap
    } else if counter_id == PROFILE_COUNTER_DUP_OVERLAP_SMALL_U64 {
        profile.duplicate_overlap_small_u64
    } else if counter_id == PROFILE_COUNTER_DUP_OVERLAP_LARGE_OFFSET_CHUNK {
        profile.duplicate_overlap_large_offset_chunk
    } else if counter_id == PROFILE_COUNTER_DUP_OVERLAP_FALLBACK_BYTE {
        profile.duplicate_overlap_fallback_byte
    } else if counter_id == PROFILE_COUNTER_COPY_FROM_DICT_CALLS {
        profile.copy_from_dict_calls
    } else if counter_id == PROFILE_COUNTER_LITERAL_BYTES {
        profile.literal_bytes
    } else if counter_id == PROFILE_COUNTER_MATCH_BYTES {
        profile.match_bytes
    } else {
        0
    }
}

} // verus!
