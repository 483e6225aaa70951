//! The LZ4 block encoder.
//!
//! A greedy hash-chain scanner finds repeated four-byte groups, extends
//! them with the longest-common-prefix primitive, and emits tokens.  Every
//! emitted token is proved, against `format::decode_from`, to advance a
//! decode of the stream built so far by exactly the bytes it stands for, so
//! `compress` carries the round-trip guarantee in its contract: its output
//! decodes to its input.

use vstd::prelude::*;

use crate::simd::count_same_bytes_simd;

use crate::block::format::{append_run, decode_from, ext_len, lemma_append_run,
    lemma_match_extend_step, lemma_read_len_bounds, match_extend, mix_zero, read_len_code,
    DecompressError, MixCounts};

verus! {

/// The decoded result alone; the instrumentation a decode accumulates never
/// influences what it produces.
pub open spec fn decode_result(input: Seq<u8>, ip: int, out: Seq<u8>, target: int) -> Result<
    Seq<u8>,
    DecompressError,
> {
    decode_from(input, ip, out, target, mix_zero()).result
}

/// The instrumentation accumulator rides along: it never changes the
/// decoded result.
pub proof fn lemma_decode_mix_irrelevant(
    input: Seq<u8>,
    ip: int,
    out: Seq<u8>,
    target: int,
    m: MixCounts,
)
    ensures
        decode_from(input, ip, out, target, m).result == decode_result(input, ip, out, target),
    decreases input.len() - ip,
{
    if ip < input.len() {
        let lit_code = (input[ip] as int) / 16;
        let match_code = (input[ip] as int) % 16;
        lemma_read_len_bounds(input, ip + 1, lit_code);
        match read_len_code(input, ip + 1, lit_code) {
            None => {},
            Some(lr) => {
                let ip3 = lr.1 + lr.0;
                lemma_read_len_bounds(input, ip3 + 2, match_code);
                if lr.1 + lr.0 <= input.len() && out.len() + lr.0 <= target && ip3 != input.len()
                    && ip3 + 2 <= input.len() {
                    let offset = (input[ip3] as int) + 256 * (input[ip3 + 1] as int);
                    if offset != 0 && offset <= out.len() + lr.0 {
                        match read_len_code(input, ip3 + 2, match_code) {
                            None => {},
                            Some(mr) => {
                                let ml = mr.0 + 4;
                                if out.len() + lr.0 + ml <= target {
                                    let out2 = append_run(out, input, lr.1, lr.0);
                                    lemma_decode_mix_irrelevant(
                                        input,
                                        mr.1,
                                        match_extend(out2, offset, ml),
                                        target,
                                        crate::block::format::mix_add_match(
                                            crate::block::format::mix_add_literal(m, lr.0),
                                            lit_code,
                                            match_code,
                                            offset,
                                            ml,
                                            target - (out.len() + lr.0),
                                        ),
                                    );
                                    lemma_decode_mix_irrelevant(
                                        input,
                                        mr.1,
                                        match_extend(out2, offset, ml),
                                        target,
                                        crate::block::format::mix_add_match(
                                            crate::block::format::mix_add_literal(
                                                mix_zero(),
                                                lr.0,
                                            ),
                                            lit_code,
                                            match_code,
                                            offset,
                                            ml,
                                            target - (out.len() + lr.0),
                                        ),
                                    );
                                }
                            },
                        }
                    }
                }
            },
        }
    }
}

/// The length-extension bytes for an overflow of `rem` beyond code 15:
/// as many 255 bytes as fit, then the remainder.
pub open spec fn ext_bytes(rem: int) -> Seq<u8>
    recommends
        rem >= 0,
    decreases rem,
{
    if rem >= 255 {
        seq![255u8] + ext_bytes(rem - 255)
    } else if rem >= 0 {
        seq![rem as u8]
    } else {
        seq![0u8]
    }
}

/// Parsing an encoded extension at its position yields exactly the encoded
/// value and lands just past it.
pub proof fn lemma_parse_ext_bytes(x: Seq<u8>, p: int, acc: int, rem: int)
    requires
        rem >= 0,
        0 <= p,
        p + ext_bytes(rem).len() <= x.len(),
        forall|i: int| 0 <= i < ext_bytes(rem).len() ==> x[p + i] == #[trigger] ext_bytes(rem)[i],
    ensures
        ext_len(x, p, acc) == Some((acc + rem, p + ext_bytes(rem).len())),
    decreases rem,
{
    if rem >= 255 {
        assert(x[p] == ext_bytes(rem)[0]);
        assert(ext_bytes(rem)[0] == 255u8);
        assert forall|i: int|
            0 <= i < ext_bytes(rem - 255).len() implies x[p + 1 + i] == #[trigger] ext_bytes(
            rem - 255,
        )[i] by {
            assert(ext_bytes(rem)[1 + i] == ext_bytes(rem - 255)[i]);
            assert(x[p + (1 + i)] == ext_bytes(rem)[1 + i]);
        }
        lemma_parse_ext_bytes(x, p + 1, acc + 255, rem - 255);
    } else {
        assert(x[p] == ext_bytes(rem)[0]);
        assert(ext_bytes(rem)[0] == rem as u8);
    }
}

/// The 4-bit length code for a value: itself below 15, else 15 with the
/// excess in extension bytes.
pub open spec fn len_nibble(v: int) -> int {
    if v >= 15 {
        15
    } else {
        v
    }
}

/// The extension bytes a length needs (none below 15).
pub open spec fn len_ext(v: int) -> Seq<u8> {
    if v >= 15 {
        ext_bytes(v - 15)
    } else {
        Seq::empty()
    }
}

/// The byte encoding of one full token: token byte, literal-length
/// extension, the literals, the 16-bit little-endian offset, and the
/// match-length extension.
pub open spec fn token_bytes(lit_len: int, lits: Seq<u8>, off: int, ml: int) -> Seq<u8> {
    seq![(len_nibble(lit_len) * 16 + len_nibble(ml - 4)) as u8] + len_ext(lit_len) + lits + seq![
        (off % 256) as u8,
        (off / 256) as u8,
    ] + len_ext(ml - 4)
}

/// The byte encoding of a closing, literals-only token.
pub open spec fn final_token_bytes(lit_len: int, lits: Seq<u8>) -> Seq<u8> {
    seq![(len_nibble(lit_len) * 16) as u8] + len_ext(lit_len) + lits
}

/// Resolving a length whose code and extension were emitted by the encoder
/// recovers the length and lands just past the extension.
proof fn lemma_parse_len(x: Seq<u8>, p: int, v: int)
    requires
        v >= 0,
        0 <= p,
        p + len_ext(v).len() <= x.len(),
        forall|i: int| 0 <= i < len_ext(v).len() ==> x[p + i] == #[trigger] len_ext(v)[i],
    ensures
        read_len_code(x, p, len_nibble(v)) == Some((v, p + len_ext(v).len())),
{
    if v >= 15 {
        lemma_parse_ext_bytes(x, p, 15, v - 15);
    }
}


/// Parsing one emitted full token advances the decode by its literals and
/// its match, and lands exactly past the token's bytes.
pub proof fn lemma_parse_token(
    x: Seq<u8>,
    ip: int,
    out: Seq<u8>,
    target: int,
    lit_len: int,
    lits: Seq<u8>,
    off: int,
    ml: int,
)
    requires
        lit_len >= 0,
        lits.len() == lit_len,
        1 <= off <= out.len() + lit_len,
        off <= 65535,
        ml >= 4,
        out.len() + lit_len + ml <= target,
        0 <= ip,
        ip + token_bytes(lit_len, lits, off, ml).len() <= x.len(),
        forall|i: int|
            0 <= i < token_bytes(lit_len, lits, off, ml).len() ==> x[ip + i] == #[trigger]
            token_bytes(lit_len, lits, off, ml)[i],
    ensures
        decode_result(x, ip, out, target) == decode_result(
            x,
            ip + token_bytes(lit_len, lits, off, ml).len(),
            match_extend(out + lits, off, ml),
            target,
        ),
{
    let tb = token_bytes(lit_len, lits, off, ml);
    let le = len_ext(lit_len);
    let me_ = len_ext(ml - 4);
    let ln = len_nibble(lit_len);
    let mn = len_nibble(ml - 4);
    assert(0 <= ln <= 15 && 0 <= mn <= 15);
    assert(tb.len() == 1 + le.len() + lits.len() + 2 + me_.len());
    assert(tb[0] == (ln * 16 + mn) as u8);
    assert(x[ip] == (ln * 16 + mn) as u8);
    assert((x[ip] as int) == ln * 16 + mn);
    assert((ln * 16 + mn) / 16 == ln && (ln * 16 + mn) % 16 == mn) by (nonlinear_arith)
        requires
            0 <= ln <= 15 && 0 <= mn <= 15,
    ;

    // Literal length.
    assert forall|i: int| 0 <= i < le.len() implies x[ip + 1 + i] == #[trigger] le[i] by {
        assert(tb[1 + i] == le[i]);
        assert(x[ip + (1 + i)] == tb[1 + i]);
    }
    lemma_parse_len(x, ip + 1, lit_len);
    let ip2 = ip + 1 + le.len();
    assert(read_len_code(x, ip + 1, ln) == Some((lit_len, ip2)));

    // Literal bytes.
    assert forall|k: int| 0 <= k < lit_len implies x[ip2 + k] == lits[k] by {
        assert(tb[1 + le.len() + k] == lits[k]);
        assert(x[ip + (1 + le.len() + k)] == tb[1 + le.len() + k]);
    }
    let out2 = append_run(out, x, ip2, lit_len);
    lemma_append_run(out, x, ip2, lit_len);
    assert forall|j: int| 0 <= j < out2.len() implies out2[j] == (out + lits)[j] by {
        if j >= out.len() {
            let k = j - out.len();
            assert(out2[out.len() as int + k] == x[ip2 + k]);
            assert(x[ip2 + k] == lits[k]);
        }
    }
    assert(out2 =~= out + lits);
    let ip3 = ip2 + lit_len;
    assert(ip3 + 2 + me_.len() == ip + tb.len());
    assert(ip3 != x.len());

    // Offset bytes.
    assert(tb[1 + le.len() + lits.len() as int] == (off % 256) as u8);
    assert(x[ip3] == (off % 256) as u8);
    assert(tb[1 + le.len() + lits.len() as int + 1] == (off / 256) as u8);
    assert(x[ip3 + 1] == (off / 256) as u8);
    assert(0 <= off % 256 < 256 && 0 <= off / 256 <= 255) by {
        vstd::arithmetic::div_mod::lemma_fundamental_div_mod(off, 256);
    }
    assert((x[ip3] as int) + 256 * (x[ip3 + 1] as int) == off) by {
        vstd::arithmetic::div_mod::lemma_fundamental_div_mod(off, 256);
    }

    // Match length.
    assert forall|i: int| 0 <= i < me_.len() implies x[ip3 + 2 + i] == #[trigger] me_[i] by {
        assert(tb[1 + le.len() + lits.len() + 2 + i] == me_[i]);
        assert(x[ip + (1 + le.len() + lits.len() + 2 + i)] == tb[1 + le.len() + lits.len() + 2
            + i]);
    }
    lemma_parse_len(x, ip3 + 2, ml - 4);
    let ip4 = ip3 + 2 + me_.len();
    assert(read_len_code(x, ip3 + 2, mn) == Some((ml - 4, ip4)));

    assert(decode_from(x, ip, out, target, mix_zero()).result == decode_from(
        x,
        ip4,
        match_extend(out2, off, ml),
        target,
        crate::block::format::mix_add_match(
            crate::block::format::mix_add_literal(mix_zero(), lit_len),
            ln,
            mn,
            off,
            ml,
            target - (out.len() + lit_len),
        ),
    ).result);
    lemma_decode_mix_irrelevant(
        x,
        ip4,
        match_extend(out2, off, ml),
        target,
        crate::block::format::mix_add_match(
            crate::block::format::mix_add_literal(mix_zero(), lit_len),
            ln,
            mn,
            off,
            ml,
            target - (out.len() + lit_len),
        ),
    );
}

/// Parsing an emitted closing token that ends the stream and lands the
/// output exactly on the target succeeds with the literals appended.
pub proof fn lemma_parse_final_token(
    x: Seq<u8>,
    ip: int,
    out: Seq<u8>,
    target: int,
    lit_len: int,
    lits: Seq<u8>,
)
    requires
        lit_len >= 0,
        lits.len() == lit_len,
        out.len() + lit_len == target,
        0 <= ip,
        ip + final_token_bytes(lit_len, lits).len() == x.len(),
        forall|i: int|
            0 <= i < final_token_bytes(lit_len, lits).len() ==> x[ip + i] == #[trigger]
            final_token_bytes(lit_len, lits)[i],
    ensures
        decode_result(x, ip, out, target) == Ok::<Seq<u8>, DecompressError>(out + lits),
{
    let tb = final_token_bytes(lit_len, lits);
    let le = len_ext(lit_len);
    let ln = len_nibble(lit_len);
    assert(0 <= ln <= 15);
    assert(tb.len() == 1 + le.len() + lits.len());
    assert(tb[0] == (ln * 16) as u8);
    assert(x[ip] == (ln * 16) as u8);
    assert((x[ip] as int) == ln * 16);
    assert((ln * 16) / 16 == ln) by (nonlinear_arith)
        requires
            0 <= ln <= 15,
    ;

    assert forall|i: int| 0 <= i < le.len() implies x[ip + 1 + i] == #[trigger] le[i] by {
        assert(tb[1 + i] == le[i]);
        assert(x[ip + (1 + i)] == tb[1 + i]);
    }
    lemma_parse_len(x, ip + 1, lit_len);
    let ip2 = ip + 1 + le.len();
    assert(read_len_code(x, ip + 1, ln) == Some((lit_len, ip2)));

    assert forall|k: int| 0 <= k < lit_len implies x[ip2 + k] == lits[k] by {
        assert(tb[1 + le.len() + k] == lits[k]);
        assert(x[ip + (1 + le.len() + k)] == tb[1 + le.len() + k]);
    }
    let out2 = append_run(out, x, ip2, lit_len);
    lemma_append_run(out, x, ip2, lit_len);
    assert forall|j: int| 0 <= j < out2.len() implies out2[j] == (out + lits)[j] by {
        if j >= out.len() {
            let k = j - out.len();
            assert(out2[out.len() as int + k] == x[ip2 + k]);
            assert(x[ip2 + k] == lits[k]);
        }
    }
    assert(out2 =~= out + lits);
    assert(ip2 + lit_len == x.len());
}


/// A match the encoder found is genuine repetition: extending the decoded
/// prefix of `s` by `ml` bytes copied from `off` back reproduces the next
/// `ml` bytes of `s` itself.
pub proof fn lemma_match_extend_take(s: Seq<u8>, p: int, off: int, ml: int)
    requires
        1 <= off <= p,
        ml >= 0,
        p + ml <= s.len(),
        forall|i: int| 0 <= i < ml ==> #[trigger] s[p + i] == s[p - off + i],
    ensures
        match_extend(s.take(p), off, ml) == s.take(p + ml),
    decreases ml,
{
    if ml == 0 {
        assert(s.take(p) =~= s.take(p + 0));
    } else {
        lemma_match_extend_take(s, p, off, ml - 1);
        lemma_match_extend_step(s.take(p), off, ml - 1);
        let o = match_extend(s.take(p), off, ml - 1);
        assert(o == s.take(p + ml - 1));
        assert(o[p + ml - 1 - off] == s[p + ml - 1 - off]);
        assert(s[p + (ml - 1)] == s[p - off + (ml - 1)]);
        assert(match_extend(s.take(p), off, ml) == o.push(s[p + ml - 1]));
        assert(s.take(p + ml - 1).push(s[p + ml - 1]) =~= s.take(p + ml));
    }
}

/// Append the extension bytes for `rem` to `out`.
fn push_ext(out: &mut Vec<u8>, rem: usize)
    ensures
        final(out)@ == old(out)@ + ext_bytes(rem as int),
{
    let mut r = rem;
    while r >= 255
        invariant
            out@ + ext_bytes(r as int) == old(out)@ + ext_bytes(rem as int),
        decreases r,
    {
        let ghost pre = out@;
        out.push(255);
        r -= 255;
        proof {
            assert(ext_bytes(r + 255) == seq![255u8] + ext_bytes(r as int));
            assert(out@ + ext_bytes(r as int) =~= pre + ext_bytes(r + 255));
        }
    }
    let ghost pre = out@;
    out.push(r as u8);
    proof {
        assert(ext_bytes(r as int) == seq![r as u8]);
        assert(out@ =~= pre + ext_bytes(r as int));
        assert(out@ =~= old(out)@ + ext_bytes(rem as int));
    }
}

/// Append `count` bytes of `input` starting at `from` to `out`.
fn push_run(out: &mut Vec<u8>, input: &[u8], from: usize, count: usize)
    requires
        from + count <= input@.len(),
    ensures
        final(out)@ == old(out)@ + input@.subrange(from as int, from + count),
{
    let ilen = input.len();
    let mut k: usize = 0;
    while k < count
        invariant
            k <= count,
            from + count <= ilen,
            ilen == input@.len(),
            out@ == old(out)@ + input@.subrange(from as int, from + k),
        decreases count - k,
    {
        let ghost pre = out@;
        out.push(input[from + k]);
        k += 1;
        proof {
            assert(out@ =~= old(out)@ + input@.subrange(from as int, from + k));
        }
    }
    proof {
        assert(out@ =~= old(out)@ + input@.subrange(from as int, from + count));
    }
}

/// Emit one full token: a literal run of `input[lit_from..lit_from +
/// lit_len]` followed by a match of `ml` bytes at distance `off`.
fn emit_token(
    out: &mut Vec<u8>,
    input: &[u8],
    lit_from: usize,
    lit_len: usize,
    off: usize,
    ml: usize,
)
    requires
        lit_from + lit_len <= input@.len(),
        1 <= off <= 65535,
        4 <= ml,
    ensures
        final(out)@ == old(out)@ + token_bytes(
            lit_len as int,
            input@.subrange(lit_from as int, lit_from + lit_len),
            off as int,
            ml as int,
        ),
{
    let ghost lits = input@.subrange(lit_from as int, lit_from + lit_len);
    let ln: u8 = if lit_len >= 15 {
        15
    } else {
        lit_len as u8
    };
    let mn: u8 = if ml - 4 >= 15 {
        15
    } else {
        (ml - 4) as u8
    };
    let ghost c0 = out@;
    out.push(ln * 16 + mn);
    let ghost c1 = out@;
    if lit_len >= 15 {
        push_ext(out, lit_len - 15);
    }
    proof {
        assert(out@ =~= c1 + len_ext(lit_len as int));
    }
    let ghost c2 = out@;
    push_run(out, input, lit_from, lit_len);
    let ghost c3 = out@;
    out.push((off % 256) as u8);
    out.push((off / 256) as u8);
    let ghost c4 = out@;
    if ml - 4 >= 15 {
        push_ext(out, ml - 4 - 15);
    }
    proof {
        assert(out@ =~= c4 + len_ext(ml - 4));
        assert(c1 =~= c0 + seq![(len_nibble(lit_len as int) * 16 + len_nibble(ml - 4)) as u8]);
        assert(c4 =~= c3 + seq![((off as int) % 256) as u8, ((off as int) / 256) as u8]);
        assert(out@ =~= c0 + token_bytes(lit_len as int, lits, off as int, ml as int));
    }
}

/// Emit the closing, literals-only token.
fn emit_final_token(out: &mut Vec<u8>, input: &[u8], lit_from: usize, lit_len: usize)
    requires
        lit_from + lit_len <= input@.len(),
    ensures
        final(out)@ == old(out)@ + final_token_bytes(
            lit_len as int,
            input@.subrange(lit_from as int, lit_from + lit_len),
        ),
{
    let ghost lits = input@.subrange(lit_from as int, lit_from + lit_len);
    let ln: u8 = if lit_len >= 15 {
        15
    } else {
        lit_len as u8
    };
    let ghost c0 = out@;
    out.push(ln * 16);
    let ghost c1 = out@;
    if lit_len >= 15 {
        push_ext(out, lit_len - 15);
    }
    proof {
        assert(out@ =~= c1 + len_ext(lit_len as int));
    }
    push_run(out, input, lit_from, lit_len);
    proof {
        assert(c1 =~= c0 + seq![(len_nibble(lit_len as int) * 16) as u8]);
        assert(out@ =~= c0 + final_token_bytes(lit_len as int, lits));
    }
}


/// The tokens in `c` decode, as the head of any extension of `c`, to
/// exactly the first `a` bytes of `s`, consuming all of `c`.
pub open spec fn emitted_ok(c: Seq<u8>, s: Seq<u8>, a: int) -> bool {
    forall|rest: Seq<u8>|
        #[trigger] decode_result(c + rest, 0, Seq::empty(), s.len() as int) == decode_result(
            c + rest,
            c.len() as int,
            s.take(a),
            s.len() as int,
        )
}

/// The table index for a four-byte group.
fn hash4(v: u32) -> (h: usize)
    ensures
        h < 4096,
{
    let y = v.wrapping_mul(2654435761);
    proof {
        assert(y >> 20u32 < 4096) by (bit_vector);
    }
    (y >> 20) as usize
}


/// One emitted full token extends the emitted-stream invariant from the
/// literal anchor to the end of its match.
proof fn lemma_emit_step(
    c_old: Seq<u8>,
    s: Seq<u8>,
    anchor: int,
    pos: int,
    off: int,
    ml: int,
    c_new: Seq<u8>,
)
    requires
        emitted_ok(c_old, s, anchor),
        0 <= anchor <= pos,
        1 <= off <= pos,
        off <= 65535,
        4 <= ml,
        pos + ml <= s.len(),
        forall|i: int| 0 <= i < ml ==> #[trigger] s[pos + i] == s[pos - off + i],
        c_new == c_old + token_bytes(pos - anchor, s.subrange(anchor, pos), off, ml),
    ensures
        emitted_ok(c_new, s, pos + ml),
{
    let tgt = s.len() as int;
    let lits = s.subrange(anchor, pos);
    let lit_len = pos - anchor;
    let tb = token_bytes(lit_len, lits, off, ml);
    lemma_match_extend_take(s, pos, off, ml);
    assert(s.take(anchor) + lits =~= s.take(pos));
    assert forall|rest: Seq<u8>|
        #[trigger] decode_result(c_new + rest, 0, Seq::empty(), tgt) == decode_result(
            c_new + rest,
            c_new.len() as int,
            s.take(pos + ml),
            tgt,
        ) by {
        let x = c_new + rest;
        assert(x =~= c_old + (tb + rest));
        assert(decode_result(c_old + (tb + rest), 0, Seq::empty(), tgt) == decode_result(
            c_old + (tb + rest),
            c_old.len() as int,
            s.take(anchor),
            tgt,
        ));
        assert forall|i: int| 0 <= i < tb.len() implies x[c_old.len() + i] == #[trigger] tb[i] by {
            assert((c_old + tb)[c_old.len() + i] == tb[i]);
            assert(x[c_old.len() + i] == (c_old + tb)[c_old.len() + i]);
        }
        lemma_parse_token(x, c_old.len() as int, s.take(anchor), tgt, lit_len, lits, off, ml);
        assert(match_extend(s.take(anchor) + lits, off, ml) == s.take(pos + ml));
        assert(c_old.len() + tb.len() == c_new.len());
    }
}

/// The closing token turns the emitted-stream invariant into the whole
/// round trip: the finished stream decodes to all of `s`.
proof fn lemma_emit_final(c_last: Seq<u8>, s: Seq<u8>, anchor: int, c_new: Seq<u8>)
    requires
        emitted_ok(c_last, s, anchor),
        0 <= anchor <= s.len(),
        c_new == c_last + final_token_bytes(s.len() - anchor, s.subrange(anchor, s.len() as int)),
    ensures
        decode_result(c_new, 0, Seq::empty(), s.len() as int) == Ok::<Seq<u8>, DecompressError>(s),
{
    let tgt = s.len() as int;
    let lits = s.subrange(anchor, tgt);
    let lit_len = tgt - anchor;
    let ftb = final_token_bytes(lit_len, lits);
    assert(decode_result(c_last + ftb, 0, Seq::empty(), tgt) == decode_result(
        c_last + ftb,
        c_last.len() as int,
        s.take(anchor),
        tgt,
    ));
    assert forall|i: int| 0 <= i < ftb.len() implies c_new[c_last.len() + i] == #[trigger]
    ftb[i] by {
        assert((c_last + ftb)[c_last.len() + i] == ftb[i]);
    }
    lemma_parse_final_token(c_new, c_last.len() as int, s.take(anchor), tgt, lit_len, lits);
    assert(s.take(anchor) + lits =~= s);
}

/// Compress `input` as one LZ4 block.  The contract is the round trip:
/// decoding the result with the input's length as target reproduces the
/// input exactly.
#[verifier::loop_isolation(false)]
#[verifier::rlimit(100)]
pub fn compress(input: &[u8]) -> (r: Vec<u8>)
    ensures
        crate::block::format::spec_decompress(r@, input@.len() as int) == Ok::<
            Seq<u8>,
            DecompressError,
        >(input@),
{
    let n = input.len();
    let ghost s = input@;
    let ghost tgt = n as int;
    let mut out: Vec<u8> = Vec::new();
    proof {
        assert forall|rest: Seq<u8>|
            #[trigger] decode_result(out@ + rest, 0, Seq::empty(), tgt) == decode_result(
                out@ + rest,
                out@.len() as int,
                s.take(0),
                tgt,
            ) by {
            assert(s.take(0) =~= Seq::<u8>::empty());
        }
        assert(emitted_ok(out@, s, 0));
    }

    let mut table: Vec<usize> = Vec::new();
    let mut t: usize = 0;
    while t < 4096
        invariant
            table@.len() == t,
            t <= 4096,
        decreases 4096 - t,
    {
        table.push(0);
        t += 1;
    }

    let mut anchor: usize = 0;
    let mut pos: usize = 0;
    while n - pos >= 12
        invariant
            anchor <= pos <= n,
            table@.len() == 4096,
            emitted_ok(out@, s, anchor as int),
        decreases n - pos,
    {
        let v = (input[pos] as u32) + 256 * (input[pos + 1] as u32) + 65536 * (input[pos + 2]
            as u32) + 16777216 * (input[pos + 3] as u32);
        let h = hash4(v);
        let cand = table[h];
        table.set(h, pos);
        if cand < pos && pos - cand <= 65535 && input[cand] == input[pos] && input[cand + 1]
            == input[pos + 1] && input[cand + 2] == input[pos + 2] && input[cand + 3] == input[pos
            + 3] {
            let avail = n - 9 - pos;
            let a = &input[cand + 4..cand + 4 + avail];
            let b = &input[pos + 4..pos + 4 + avail];
            let ext = count_same_bytes_simd(a, b);
            let ml = 4 + ext;
            let off = pos - cand;
            let lit_len = pos - anchor;
            let ghost c_old = out@;
            emit_token(&mut out, input, anchor, lit_len, off, ml);
            proof {
                assert forall|i: int| 0 <= i < ml implies #[trigger] s[pos + i] == s[pos - off
                    + i] by {
                    if i >= 4 {
                        assert(a@[i - 4] == b@[i - 4]);
                        assert(a@[i - 4] == s[cand + 4 + (i - 4)]);
                        assert(b@[i - 4] == s[pos + 4 + (i - 4)]);
                    }
                }
                lemma_emit_step(c_old, s, anchor as int, pos as int, off as int, ml as int, out@);
            }
            pos = pos + ml;
            anchor = pos;
        } else {
            pos += 1;
        }
    }

    let lit_len = n - anchor;
    let ghost c_last = out@;
    emit_final_token(&mut out, input, anchor, lit_len);
    proof {
        lemma_emit_final(c_last, s, anchor as int, out@);
    }
    out
}

/// Compress `input` and prepend its length as four little-endian bytes, so
/// the decoder can size its buffer without outside knowledge.
pub fn compress_prepend_size(input: &[u8]) -> (r: Vec<u8>)
    requires
        input@.len() <= u32::MAX,
    ensures
        r@.len() >= 4,
        crate::block::decode::spec_decompress_prepended(r@) == Ok::<Seq<u8>, DecompressError>(
            input@,
        ),
{
    let n = input.len();
    let n32 = n as u32;
    let body = compress(input);
    let mut out: Vec<u8> = Vec::new();
    out.push((n32 % 256) as u8);
    out.push(((n32 / 256) % 256) as u8);
    out.push(((n32 / 65536) % 256) as u8);
    out.push((n32 / 16777216) as u8);
    let ghost prefix = out@;
    let blen = body.len();
    let mut k: usize = 0;
    while k < blen
        invariant
            k <= blen,
            blen == body@.len(),
            out@ == prefix + body@.take(k as int),
            prefix.len() == 4,
        decreases blen - k,
    {
        out.push(body[k]);
        k += 1;
        proof {
            assert(out@ =~= prefix + body@.take(k as int));
        }
    }
    proof {
        assert(out@.skip(4) =~= body@);
        assert(crate::hash::le4(out@[0], out@[1], out@[2], out@[3]) == n32) by {
            assert(out@[0] == (n32 % 256) as u8);
            assert(out@[1] == ((n32 / 256) % 256) as u8);
            assert(out@[2] == ((n32 / 65536) % 256) as u8);
            assert(out@[3] == (n32 / 16777216) as u8);
            assert((n32 % 256) + 256 * ((n32 / 256) % 256) + 65536 * ((n32 / 65536) % 256)
                + 16777216 * (n32 / 16777216) == n32) by (bit_vector);
        }
    }
    out
}

} // verus!
