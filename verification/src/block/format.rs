//! The LZ4 block format as a mathematical function.
//!
//! A compressed block is a sequence of tokens.  Each token carries a
//! literal run and, unless it is the last token of the block, a match: a
//! 16-bit little-endian offset back into the already-produced output and a
//! match length with base 4.  Lengths use a 4-bit code; code 15 means the
//! length continues in extension bytes, each adding its value, any byte
//! below 255 ending the extension.
//!
//! `decode_from` mirrors the decoder's loop exactly, one recursive step per
//! token, and also accumulates the byte-mix and copy-strategy counters that
//! the instrumentation layer reports, so the executable decoder, the mix
//! report and the profile all answer to one definition.

use vstd::prelude::*;

verus! {

/// Why a decode failed.
#[derive(Clone, Copy, Debug, PartialEq, Eq, Structural)]
pub enum DecompressError {
    /// The token stream ended mid-token, or an offset was zero or reached
    /// before the start of the output.
    CorruptInput,
    /// A literal run or match would write past the declared output length.
    OutputOverflow,
    /// Input and output were not exhausted together.
    LengthMismatch,
}

/// Decode instrumentation, accumulated per token during `decode_from`.
///
/// `literal_bytes + match_bytes` accounts for every produced byte; the five
/// `off_*` buckets partition `match_bytes` by offset; the two `*_path_bytes`
/// fields partition it by whether the copy may read bytes this same match
/// wrote; the `dup_*` fields count matches by the copy strategy a
/// vectorized decoder picks, and `fast_token_hits` counts tokens whose two
/// length codes both avoid extension bytes.
pub struct MixCounts {
    pub literal_bytes: int,
    pub match_bytes: int,
    pub overlap_path_bytes: int,
    pub non_overlap_path_bytes: int,
    pub off_1_bytes: int,
    pub off_2_bytes: int,
    pub off_3_7_bytes: int,
    pub off_8_15_bytes: int,
    pub off_ge_16_bytes: int,
    pub fast_token_hits: int,
    pub dup_nonoverlap_wild: int,
    pub dup_near_end_exact_nonoverlap: int,
    pub dup_overlap_small: int,
    pub dup_overlap_large_offset_chunk: int,
    pub dup_overlap_fallback_byte: int,
}

/// All counters at zero.
pub open spec fn mix_zero() -> MixCounts {
    (MixCounts {
        literal_bytes: 0,
        match_bytes: 0,
        overlap_path_bytes: 0,
        non_overlap_path_bytes: 0,
        off_1_bytes: 0,
        off_2_bytes: 0,
        off_3_7_bytes: 0,
        off_8_15_bytes: 0,
        off_ge_16_bytes: 0,
        fast_token_hits: 0,
        dup_nonoverlap_wild: 0,
        dup_near_end_exact_nonoverlap: 0,
        dup_overlap_small: 0,
        dup_overlap_large_offset_chunk: 0,
        dup_overlap_fallback_byte: 0,
    })
}

/// Account for a literal run.
pub open spec fn mix_add_literal(m: MixCounts, lit: int) -> MixCounts {
    (MixCounts { literal_bytes: m.literal_bytes + lit, ..m })
}

/// Account for a match: bucket its bytes by offset, classify the copy
/// strategy from offset, length and the room left in the output, and count
/// extension-free tokens.
pub open spec fn mix_add_match(
    m: MixCounts,
    lit_code: int,
    match_code: int,
    offset: int,
    ml: int,
    remaining: int,
) -> MixCounts {
    let m1 = MixCounts { match_bytes: m.match_bytes + ml, ..m };
    let m2 = if offset == 1 {
        MixCounts { off_1_bytes: m1.off_1_bytes + ml, ..m1 }
    } else if offset == 2 {
        MixCounts { off_2_bytes: m1.off_2_bytes + ml, ..m1 }
    } else if offset < 8 {
        MixCounts { off_3_7_bytes: m1.off_3_7_bytes + ml, ..m1 }
    } else if offset < 16 {
        MixCounts { off_8_15_bytes: m1.off_8_15_bytes + ml, ..m1 }
    } else {
        MixCounts { off_ge_16_bytes: m1.off_ge_16_bytes + ml, ..m1 }
    };
    let m3 = if offset < ml + 15 || remaining < ml + 15 {
        if offset >= ml {
            MixCounts {
                non_overlap_path_bytes: m2.non_overlap_path_bytes + ml,
                dup_near_end_exact_nonoverlap: m2.dup_near_end_exact_nonoverlap + 1,
                ..m2
            }
        } else if offset == 1 || offset == 2 || offset == 4 || offset == 8 {
            MixCounts {
                overlap_path_bytes: m2.overlap_path_bytes + ml,
                dup_overlap_small: m2.dup_overlap_small + 1,
                ..m2
            }
        } else if offset >= 16 {
            MixCounts {
                overlap_path_bytes: m2.overlap_path_bytes + ml,
                dup_overlap_large_offset_chunk: m2.dup_overlap_large_offset_chunk + 1,
                ..m2
            }
        } else {
            MixCounts {
                overlap_path_bytes: m2.overlap_path_bytes + ml,
                dup_overlap_fallback_byte: m2.dup_overlap_fallback_byte + 1,
                ..m2
            }
        }
    } else {
        MixCounts {
            non_overlap_path_bytes: m2.non_overlap_path_bytes + ml,
            dup_nonoverlap_wild: m2.dup_nonoverlap_wild + 1,
            ..m2
        }
    };
    if lit_code < 15 && match_code < 15 {
        MixCounts { fast_token_hits: m3.fast_token_hits + 1, ..m3 }
    } else {
        m3
    }
}

/// Resolve a length extension: add each byte to `acc`, 255 meaning "keep
/// reading"; `None` when the input ends first.  Returns the resolved length
/// and the position after the extension.
pub open spec fn ext_len(input: Seq<u8>, ip: int, acc: int) -> Option<(int, int)>
    decreases input.len() - ip,
{
    if ip < 0 || ip >= input.len() {
        None
    } else if input[ip] == 255 {
        ext_len(input, ip + 1, acc + 255)
    } else {
        Some((acc + input[ip], ip + 1))
    }
}

/// Resolve a 4-bit length code at `ip`: a code below 15 is the length
/// itself and consumes nothing.
pub open spec fn read_len_code(input: Seq<u8>, ip: int, code: int) -> Option<(int, int)> {
    if code < 15 {
        Some((code, ip))
    } else {
        ext_len(input, ip, 15)
    }
}

/// A resolved extension sits between `ip` and the end of the input and can
/// only grow the accumulator.
pub proof fn lemma_ext_len_bounds(input: Seq<u8>, ip: int, acc: int)
    ensures
        ext_len(input, ip, acc) matches Some(r) ==> ip < r.1 <= input.len() && r.0 >= acc,
    decreases input.len() - ip,
{
    if 0 <= ip < input.len() && input[ip] == 255 {
        lemma_ext_len_bounds(input, ip + 1, acc + 255);
    }
}

/// Bounds for `read_len_code`: the cursor never moves backwards and stays
/// inside the input.
pub proof fn lemma_read_len_bounds(input: Seq<u8>, ip: int, code: int)
    ensures
        read_len_code(input, ip, code) matches Some(r) ==> ip <= r.1 <= input.len() || (code < 15
            && r.1 == ip),
        code >= 0 ==> (read_len_code(input, ip, code) matches Some(r) ==> r.0 >= 0),
{
    if code >= 15 {
        lemma_ext_len_bounds(input, ip, 15);
    }
}

/// Append `count` bytes of `s`, starting at `from`, to `out`.
pub open spec fn append_run(out: Seq<u8>, s: Seq<u8>, from: int, count: int) -> Seq<u8>
    decreases count,
{
    if count <= 0 {
        out
    } else {
        append_run(out.push(s[from]), s, from + 1, count - 1)
    }
}

/// What `append_run` produces, byte by byte.
pub proof fn lemma_append_run(out: Seq<u8>, s: Seq<u8>, from: int, count: int)
    requires
        count >= 0,
    ensures
        append_run(out, s, from, count).len() == out.len() + count,
        forall|j: int| 0 <= j < out.len() ==> #[trigger] append_run(out, s, from, count)[j]
            == out[j],
        forall|k: int|
            0 <= k < count ==> #[trigger] append_run(out, s, from, count)[out.len() + k] == s[from
                + k],
    decreases count,
{
    if count > 0 {
        lemma_append_run(out.push(s[from]), s, from + 1, count - 1);
        let r = append_run(out, s, from, count);
        assert forall|k: int| 0 <= k < count implies #[trigger] r[out.len() + k] == s[from
            + k] by {
            if k == 0 {
                assert(r[out.len() as int] == out.push(s[from])[out.len() as int]);
            } else {
                assert(r[out.len() + 1 + (k - 1)] == s[from + 1 + (k - 1)]);
            }
        }
    }
}

/// Materialize a match: append `count` bytes, each copied from `offset`
/// bytes behind the write position.  When `offset < count` the source
/// overlaps bytes this same match appends, which repeats the trailing
/// `offset`-byte pattern.
pub open spec fn match_extend(out: Seq<u8>, offset: int, count: int) -> Seq<u8>
    recommends
        1 <= offset <= out.len(),
    decreases count,
{
    if count <= 0 {
        out
    } else {
        match_extend(out.push(out[out.len() - offset]), offset, count - 1)
    }
}

/// Length of and prefix preservation under `match_extend`.
pub proof fn lemma_match_extend_basic(out: Seq<u8>, offset: int, count: int)
    requires
        count >= 0,
    ensures
        match_extend(out, offset, count).len() == out.len() + count,
        forall|j: int| 0 <= j < out.len() ==> #[trigger] match_extend(out, offset, count)[j]
            == out[j],
    decreases count,
{
    if count > 0 {
        lemma_match_extend_basic(out.push(out[out.len() - offset]), offset, count - 1);
    }
}

/// Peeling one step off the back: extending by `c + 1` bytes equals
/// extending by `c` and appending one more byte from `offset` back.
pub proof fn lemma_match_extend_step(out: Seq<u8>, offset: int, c: int)
    requires
        c >= 0,
    ensures
        ({
            let o = match_extend(out, offset, c);
            match_extend(out, offset, c + 1) == o.push(o[o.len() - offset])
        }),
    decreases c,
{
    if c == 0 {
        assert(match_extend(out, offset, 1) == match_extend(
            out.push(out[out.len() - offset]),
            offset,
            0,
        ));
    } else {
        lemma_match_extend_step(out.push(out[out.len() - offset]), offset, c - 1);
    }
}

/// The outcome of decoding: the produced bytes or the first violation,
/// together with the accumulated instrumentation.
pub struct DecodeOutcome {
    pub result: Result<Seq<u8>, DecompressError>,
    pub mix: MixCounts,
}

/// Decode the token stream of `input` from `ip` onward, with `out` already
/// produced, aiming for exactly `target` output bytes.  One recursive step
/// per token, mirroring the decoder loop: read the token byte, resolve
/// the literal length, copy literals, stop cleanly if the input ends here,
/// otherwise read offset and match length and materialize the match.
pub open spec fn decode_from(
    input: Seq<u8>,
    ip: int,
    out: Seq<u8>,
    target: int,
    m: MixCounts,
) -> DecodeOutcome
    decreases input.len() - ip,
    via decode_from_decreases
{
    if ip >= input.len() {
        if out.len() == target {
            DecodeOutcome { result: Ok(out), mix: m }
        } else {
            DecodeOutcome { result: Err(DecompressError::LengthMismatch), mix: m }
        }
    } else {
        let lit_code = (input[ip] as int) / 16;
        let match_code = (input[ip] as int) % 16;
        match read_len_code(input, ip + 1, lit_code) {
            None => DecodeOutcome { result: Err(DecompressError::CorruptInput), mix: m },
            Some((lit_len, ip2)) => {
                if ip2 + lit_len > input.len() {
                    DecodeOutcome { result: Err(DecompressError::CorruptInput), mix: m }
                } else if out.len() + lit_len > target {
                    DecodeOutcome { result: Err(DecompressError::OutputOverflow), mix: m }
                } else {
                    let out2 = append_run(out, input, ip2, lit_len);
                    let ip3 = ip2 + lit_len;
                    let m2 = mix_add_literal(m, lit_len);
                    if ip3 == input.len() {
                        if out.len() + lit_len == target {
                            DecodeOutcome { result: Ok(out2), mix: m2 }
                        } else {
                            DecodeOutcome { result: Err(DecompressError::LengthMismatch), mix: m2 }
                        }
                    } else if ip3 + 2 > input.len() {
                        DecodeOutcome { result: Err(DecompressError::CorruptInput), mix: m2 }
                    } else {
                        let offset = (input[ip3] as int) + 256 * (input[ip3 + 1] as int);
                        if offset == 0 || offset > out.len() + lit_len {
                            DecodeOutcome { result: Err(DecompressError::CorruptInput), mix: m2 }
                        } else {
                            match read_len_code(input, ip3 + 2, match_code) {
                                None => DecodeOutcome {
                                    result: Err(DecompressError::CorruptInput),
                                    mix: m2,
                                },
                                Some((ml_base, ip4)) => {
                                    let ml = ml_base + 4;
                                    if out.len() + lit_len + ml > target {
                                        DecodeOutcome {
                                            result: Err(DecompressError::OutputOverflow),
                                            mix: m2,
                                        }
                                    } else {
                                        decode_from(
                                            input,
                                            ip4,
                                            match_extend(out2, offset, ml),
                                            target,
                                            mix_add_match(
                                                m2,
                                                lit_code,
                                                match_code,
                                                offset,
                                                ml,
                                                target - (out.len() + lit_len),
                                            ),
                                        )
                                    }
                                },
                            }
                        }
                    }
                }
            },
        }
    }
}

#[via_fn]
proof fn decode_from_decreases(input: Seq<u8>, ip: int, out: Seq<u8>, target: int, m: MixCounts) {
    if ip < input.len() {
        let lit_code = (input[ip] as int) / 16;
        let match_code = (input[ip] as int) % 16;
        lemma_read_len_bounds(input, ip + 1, lit_code);
        match read_len_code(input, ip + 1, lit_code) {
            Some(r) => {
                let ip3 = r.1 + r.0;
                lemma_read_len_bounds(input, ip3 + 2, match_code);
            },
            None => {},
        }
    }
}

/// The whole-block decode: from the start, with nothing produced yet.
pub open spec fn spec_decompress(input: Seq<u8>, target: int) -> Result<Seq<u8>, DecompressError> {
    decode_from(input, 0, Seq::empty(), target, mix_zero()).result
}


/// Bucket and path counters only move together with `match_bytes`, and
/// literal and match bytes together account for every produced byte.
proof fn lemma_mix_invariants(input: Seq<u8>, ip: int, out: Seq<u8>, target: int, m: MixCounts)
    ensures
        ({
            let d = decode_from(input, ip, out, target, m);
            d.result is Ok ==> {
                &&& d.mix.literal_bytes + d.mix.match_bytes == m.literal_bytes + m.match_bytes + (
                target - out.len())
                &&& d.mix.off_1_bytes + d.mix.off_2_bytes + d.mix.off_3_7_bytes
                    + d.mix.off_8_15_bytes + d.mix.off_ge_16_bytes - (m.off_1_bytes
                    + m.off_2_bytes + m.off_3_7_bytes + m.off_8_15_bytes + m.off_ge_16_bytes)
                    == d.mix.match_bytes - m.match_bytes
                &&& d.mix.overlap_path_bytes + d.mix.non_overlap_path_bytes - (
                m.overlap_path_bytes + m.non_overlap_path_bytes) == d.mix.match_bytes
                    - m.match_bytes
            }
        }),
    decreases input.len() - ip,
{
    if ip < input.len() {
        let lit_code = (input[ip] as int) / 16;
        let match_code = (input[ip] as int) % 16;
        lemma_read_len_bounds(input, ip + 1, lit_code);
        match read_len_code(input, ip + 1, lit_code) {
            None => {},
            Some(lr) => {
                let ip3 = lr.1 + lr.0;
                lemma_read_len_bounds(input, ip3 + 2, match_code);
                if lr.1 + lr.0 <= input.len() && out.len() + lr.0 <= target && ip3 != input.len()
                    && ip3 + 2 <= input.len() {
                    let offset = (input[ip3] as int) + 256 * (input[ip3 + 1] as int);
                    if offset != 0 && offset <= out.len() + lr.0 {
                        match read_len_code(input, ip3 + 2, match_code) {
                            None => {},
                            Some(mr) => {
                                let ml = mr.0 + 4;
                                if out.len() + lr.0 + ml <= target {
                                    let out2 = append_run(out, input, lr.1, lr.0);
                                    lemma_append_run(out, input, lr.1, lr.0);
                                    let out3 = match_extend(out2, offset, ml);
                                    lemma_match_extend_basic(out2, offset, ml);
                                    lemma_mix_invariants(
                                        input,
                                        mr.1,
                                        out3,
                                        target,
                                        mix_add_match(
                                            mix_add_literal(m, lr.0),
                                            lit_code,
                                            match_code,
                                            offset,
                                            ml,
                                            target - (out.len() + lr.0),
                                        ),
                                    );
                                }
                            },
                        }
                    }
                }
            },
        }
    }
}

/// Profile conservation: after a successful decode of a whole block,
/// literal and match bytes sum to the target length, and both the five
/// offset buckets and the two copy paths partition the match bytes.
pub proof fn lemma_profile_conservation(input: Seq<u8>, target: int)
    requires
        decode_from(input, 0, Seq::empty(), target, mix_zero()).result is Ok,
    ensures
        ({
            let mix = decode_from(input, 0, Seq::empty(), target, mix_zero()).mix;
            &&& mix.literal_bytes + mix.match_bytes == target
            &&& mix.off_1_bytes + mix.off_2_bytes + mix.off_3_7_bytes + mix.off_8_15_bytes
                + mix.off_ge_16_bytes == mix.match_bytes
            &&& mix.overlap_path_bytes + mix.non_overlap_path_bytes == mix.match_bytes
        }),
{
    lemma_mix_invariants(input, 0, Seq::empty(), target, mix_zero());
}

} // verus!
