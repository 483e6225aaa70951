//! Robustness laws of the block format.
//!
//! The central one: cutting a valid compressed block anywhere before its
//! last byte can never make the decoder produce wrong output.  The
//! truncated stream either fails with `CorruptInput` or `LengthMismatch`,
//! or — only when the bytes cut off contributed nothing, such as a closing
//! token with an empty literal run — decodes to exactly the same output.

use vstd::prelude::*;

use crate::block::encode::{decode_result, lemma_decode_mix_irrelevant};
use crate::block::format::{append_run, ext_len, lemma_append_run,
    lemma_match_extend_basic, lemma_read_len_bounds, match_extend, mix_zero, read_len_code,
    DecompressError};

verus! {

/// A decode only ever appends: whatever it started with is a prefix of
/// what it returns, and a successful result has exactly the target length.
pub proof fn lemma_decode_prefix(input: Seq<u8>, ip: int, out: Seq<u8>, target: int)
    ensures
        decode_result(input, ip, out, target) matches Ok(s) ==> s.len() == target && out.len()
            <= target && s.take(out.len() as int) == out,
    decreases input.len() - ip,
{
    if ip >= input.len() {
        if out.len() == target {
            assert(out.take(out.len() as int) =~= out);
        }
    } else {
        let lit_code = (input[ip] as int) / 16;
        let match_code = (input[ip] as int) % 16;
        lemma_read_len_bounds(input, ip + 1, lit_code);
        match read_len_code(input, ip + 1, lit_code) {
            None => {},
            Some(lr) => {
                let ip3 = lr.1 + lr.0;
                lemma_read_len_bounds(input, ip3 + 2, match_code);
                if lr.1 + lr.0 <= input.len() && out.len() + lr.0 <= target {
                    let out2 = append_run(out, input, lr.1, lr.0);
                    lemma_append_run(out, input, lr.1, lr.0);
                    if ip3 == input.len() {
                        if out.len() + lr.0 == target {
                            assert(out2.take(out.len() as int) =~= out);
                        }
                    } else if ip3 + 2 <= input.len() {
                        let offset = (input[ip3] as int) + 256 * (input[ip3 + 1] as int);
                        if offset != 0 && offset <= out.len() + lr.0 {
                            match read_len_code(input, ip3 + 2, match_code) {
                                None => {},
                                Some(mr) => {
                                    let ml = mr.0 + 4;
                                    if out.len() + lr.0 + ml <= target {
                                        let out3 = match_extend(out2, offset, ml);
                                        lemma_match_extend_basic(out2, offset, ml);
                                        lemma_decode_mix_irrelevant(
                                            input,
                                            mr.1,
                                            out3,
                                            target,
                                            crate::block::format::mix_add_match(
                                                crate::block::format::mix_add_literal(
                                                    mix_zero(),
                                                    lr.0,
                                                ),
                                                lit_code,
                                                match_code,
                                                offset,
                                                ml,
                                                target - (out.len() + lr.0),
                                            ),
                                        );
                                        lemma_decode_prefix(input, mr.1, out3, target);
                                        match decode_result(input, mr.1, out3, target) {
                                            Ok(s) => {
                                                assert forall|j: int|
                                                    0 <= j < out.len() implies s.take(
                                                    out.len() as int,
                                                )[j] == out[j] by {
                                                    assert(s.take(out3.len() as int)[j]
                                                        == out3[j]);
                                                    assert(out3[j] == out2[j]);
                                                    assert(out2[j] == out[j]);
                                                }
                                                assert(s.take(out.len() as int) =~= out);
                                            },
                                            Err(_) => {},
                                        }
                                    }
                                },
                            }
                        }
                    }
                }
            },
        }
    }
}

/// How a resolved extension behaves after the input is cut at `k`: kept
/// whole it resolves the same; cut into, it fails.
proof fn lemma_ext_len_truncated(c: Seq<u8>, k: int, p: int, acc: int)
    requires
        0 <= p <= k <= c.len(),
    ensures
        ext_len(c, p, acc) matches Some(r) ==> (if r.1 <= k {
            ext_len(c.take(k), p, acc) == ext_len(c, p, acc)
        } else {
            ext_len(c.take(k), p, acc) is None
        }),
    decreases c.len() - p,
{
    crate::block::format::lemma_ext_len_bounds(c, p, acc);
    if p < c.len() {
        if p == k {
            assert(ext_len(c.take(k), p, acc) is None);
        } else {
            assert(c.take(k)[p] == c[p]);
            if c[p] == 255 {
                lemma_ext_len_truncated(c, k, p + 1, acc + 255);
                assert(ext_len(c.take(k), p, acc) == ext_len(c.take(k), p + 1, acc + 255));
            }
        }
    }
}

/// `lemma_ext_len_truncated` lifted to length codes.
proof fn lemma_read_len_truncated(c: Seq<u8>, k: int, p: int, code: int)
    requires
        0 <= p <= k <= c.len(),
    ensures
        read_len_code(c, p, code) matches Some(r) ==> (if r.1 <= k {
            read_len_code(c.take(k), p, code) == read_len_code(c, p, code)
        } else {
            read_len_code(c.take(k), p, code) is None
        }),
{
    if code >= 15 {
        lemma_ext_len_truncated(c, k, p, 15);
    }
}

/// When a successful decode reaches a token whose literals already fill
/// the output, that token closes the block: the result is that output.
proof fn lemma_full_tail_ok(c: Seq<u8>, ip: int, out: Seq<u8>, target: int, s: Seq<u8>, out2: Seq<
    u8,
>)
    requires
        decode_result(c, ip, out, target) == Ok::<Seq<u8>, DecompressError>(s),
        0 <= ip < c.len(),
        ({
            let lit_code = (c[ip] as int) / 16;
            read_len_code(c, ip + 1, lit_code) matches Some(lr) && lr.0 >= 0 && lr.1 + lr.0
                <= c.len() && out.len() + lr.0 <= target && out2 == append_run(out, c, lr.1, lr.0)
                && out2.len() == target
        }),
    ensures
        s == out2,
{
    let lit_code = (c[ip] as int) / 16;
    let match_code = (c[ip] as int) % 16;
    let lr = read_len_code(c, ip + 1, lit_code).unwrap();
    let ip3 = lr.1 + lr.0;
    lemma_append_run(out, c, lr.1, lr.0);
    if ip3 != c.len() {
        if ip3 + 2 <= c.len() {
            let offset = (c[ip3] as int) + 256 * (c[ip3 + 1] as int);
            if offset != 0 && offset <= out.len() + lr.0 {
                lemma_read_len_bounds(c, ip3 + 2, match_code);
                match read_len_code(c, ip3 + 2, match_code) {
                    None => {
                        assert(decode_result(c, ip, out, target) is Err);
                    },
                    Some(mr) => {
                        let ml = mr.0 + 4;
                        assert(out.len() + lr.0 + ml > target);
                        assert(decode_result(c, ip, out, target) is Err);
                    },
                }
            } else {
                assert(decode_result(c, ip, out, target) is Err);
            }
        } else {
            assert(decode_result(c, ip, out, target) is Err);
        }
    }
}

/// Corruption rejection, one token at a time: if decoding `c` from `ip`
/// succeeds with `s`, then decoding the truncation `c.take(k)` from the
/// same state fails with `CorruptInput` or `LengthMismatch` — or, when the
/// bytes past `k` contributed nothing, returns the very same `s`.
pub proof fn lemma_truncation_step(c: Seq<u8>, k: int, ip: int, out: Seq<u8>, target: int)
    requires
        0 <= ip <= k <= c.len(),
        decode_result(c, ip, out, target) is Ok,
    ensures
        ({
            let s = decode_result(c, ip, out, target).unwrap();
            let r = decode_result(c.take(k), ip, out, target);
            r == Err::<Seq<u8>, DecompressError>(DecompressError::CorruptInput) || r == Err::<
                Seq<u8>,
                DecompressError,
            >(DecompressError::LengthMismatch) || r == Ok::<Seq<u8>, DecompressError>(s)
        }),
    decreases c.len() - ip,
{
    let s = decode_result(c, ip, out, target).unwrap();
    lemma_decode_prefix(c, ip, out, target);
    let ct = c.take(k);
    if ip >= k {
        // The truncated stream ends here.
        if out.len() == target {
            assert(s.take(out.len() as int) == out);
            assert(s.take(s.len() as int) =~= s);
        }
    } else {
        let lit_code = (c[ip] as int) / 16;
        let match_code = (c[ip] as int) % 16;
        assert(ct[ip] == c[ip]);
        lemma_read_len_bounds(c, ip + 1, lit_code);
        lemma_read_len_truncated(c, k, ip + 1, lit_code);
        let lr = read_len_code(c, ip + 1, lit_code).unwrap();
        if lr.1 > k {
            // Cut inside the literal-length extension.
            assert(read_len_code(ct, ip + 1, lit_code) is None);
        } else {
            let ip2 = lr.1;
            let lit = lr.0;
            let ip3 = ip2 + lit;
            assert(ip2 + lit <= c.len() && out.len() + lit <= target);
            if ip3 > k {
                // Cut inside the literal run: the truncated stream is too
                // short to serve the literals.
                assert(ip2 + lit > ct.len());
            } else {
                let out2 = append_run(out, c, ip2, lit);
                let out2t = append_run(out, ct, ip2, lit);
                lemma_append_run(out, c, ip2, lit);
                lemma_append_run(out, ct, ip2, lit);
                assert forall|j: int| 0 <= j < out2.len() implies out2[j] == out2t[j] by {
                    if j >= out.len() {
                        let d = j - out.len();
                        assert(out2[out.len() + d] == c[ip2 + d]);
                        assert(out2t[out.len() + d] == ct[ip2 + d]);
                    }
                }
                assert(out2t =~= out2);
                if ip3 == k {
                    // The truncated stream ends exactly after the literals.
                    if out.len() + lit == target {
                        if ip3 == c.len() {
                            assert(s == out2);
                        } else {
                            lemma_full_tail_ok(c, ip, out, target, s, out2);
                        }
                        assert(decode_result(ct, ip, out, target) == Ok::<
                            Seq<u8>,
                            DecompressError,
                        >(out2));
                    }
                } else {
                    // ip3 < k, so the full stream has a match here too.
                    assert(ip3 < c.len());
                    if ip3 + 2 > k {
                        // Cut inside the offset bytes.
                        assert(ip3 + 2 > ct.len());
                    } else {
                        assert(ip3 + 2 <= c.len());
                        assert(ct[ip3] == c[ip3] && ct[ip3 + 1] == c[ip3 + 1]);
                        let offset = (c[ip3] as int) + 256 * (c[ip3 + 1] as int);
                        assert(offset != 0 && offset <= out.len() + lit);
                        lemma_read_len_bounds(c, ip3 + 2, match_code);
                        lemma_read_len_truncated(c, k, ip3 + 2, match_code);
                        match read_len_code(c, ip3 + 2, match_code) {
                            None => {
                                assert(decode_result(c, ip, out, target) is Err);
                            },
                            Some(mr) => {
                                if mr.1 > k {
                                    // Cut inside the match-length extension.
                                    assert(read_len_code(ct, ip3 + 2, match_code) is None);
                                } else {
                                    let ml = mr.0 + 4;
                                    assert(out.len() + lit + ml <= target);
                                    let out3 = match_extend(out2, offset, ml);
                                    let mnext = crate::block::format::mix_add_match(
                                        crate::block::format::mix_add_literal(mix_zero(), lit),
                                        lit_code,
                                        match_code,
                                        offset,
                                        ml,
                                        target - (out.len() + lit),
                                    );
                                    lemma_decode_mix_irrelevant(c, mr.1, out3, target, mnext);
                                    lemma_decode_mix_irrelevant(ct, mr.1, out3, target, mnext);
                                    lemma_truncation_step(c, k, mr.1, out3, target);
                                }
                            },
                        }
                    }
                }
            }
        }
    }
}

/// Corruption rejection for whole blocks: truncating a decodable block
/// strictly before its last byte is always detected, or harmlessly yields
/// the identical output; it never silently produces different bytes.
pub proof fn lemma_truncation_detected(c: Seq<u8>, target: int, k: int)
    requires
        crate::block::format::spec_decompress(c, target) is Ok,
        0 <= k < c.len(),
    ensures
        ({
            let s = crate::block::format::spec_decompress(c, target).unwrap();
            let r = crate::block::format::spec_decompress(c.take(k), target);
            r == Err::<Seq<u8>, DecompressError>(DecompressError::CorruptInput) || r == Err::<
                Seq<u8>,
                DecompressError,
            >(DecompressError::LengthMismatch) || r == Ok::<Seq<u8>, DecompressError>(s)
        }),
{
    lemma_truncation_step(c, k, 0, Seq::empty(), target);
}

} // verus!
