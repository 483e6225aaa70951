//! Fast byte-comparison primitives.
//!
//! Two entry points count the longest common prefix of two byte slices: a
//! lane-structured form that walks 16-byte blocks, mirroring a vectorized
//! compare-and-bitmask loop, and a scalar form that walks machine-word-sized
//! chunks.  Both satisfy the same exact contract (`is_common_prefix_len`),
//! so they agree on every input pair; `lemma_common_prefix_len_unique` pins
//! that agreement down as a theorem.

use vstd::prelude::*;

verus! {

/// `n` is the length of the longest common prefix of `a` and `b`: every
/// byte before `n` matches and, unless one slice ends there, byte `n`
/// differs.
pub open spec fn is_common_prefix_len(a: Seq<u8>, b: Seq<u8>, n: int) -> bool {
    &&& 0 <= n <= a.len()
    &&& n <= b.len()
    &&& (forall|j: int| 0 <= j < n ==> a[j] == b[j])
    &&& (n < a.len() && n < b.len() ==> a[n] != b[n])
}

/// Only one length can satisfy `is_common_prefix_len`, so any two
/// implementations that meet the contract agree on all input pairs.
pub proof fn lemma_common_prefix_len_unique(a: Seq<u8>, b: Seq<u8>, n: int, m: int)
    requires
        is_common_prefix_len(a, b, n),
        is_common_prefix_len(a, b, m),
    ensures
        n == m,
{
    if n < m {
        assert(a[n] == b[n]);
    }
    if m < n {
        assert(a[m] == b[m]);
    }
}

/// Count matching bytes of `a` and `b` inside one block of `width` bytes
/// starting at `start`.
fn block_common_prefix(a: &[u8], b: &[u8], start: usize, width: usize) -> (r: usize)
    requires
        start + width <= a@.len(),
        start + width <= b@.len(),
    ensures
        r <= width,
        forall|k: int| 0 <= k < r ==> a@[start + k] == #[trigger] b@[start + k],
        r < width ==> a@[start + (r as int)] != b@[start + (r as int)],
{
    let alen = a.len();
    let blen = b.len();
    let mut k: usize = 0;
    while k < width
        invariant
            k <= width,
            start + width <= alen,
            start + width <= blen,
            alen == a@.len(),
            blen == b@.len(),
            forall|j: int| 0 <= j < k ==> a@[start + j] == #[trigger] b@[start + j],
        decreases width - k,
    {
        if a[start + k] != b[start + k] {
            return k;
        }
        k += 1;
    }
    k
}

/// Count matching bytes between two slices from the start, walking
/// 16-byte lanes at a time as a vectorized compare would.
pub fn count_same_bytes_simd(a: &[u8], b: &[u8]) -> (r: usize)
    ensures
        is_common_prefix_len(a@, b@, r as int),
{
    let alen = a.len();
    let blen = b.len();
    let len = if alen < blen {
        alen
    } else {
        blen
    };
    let mut offset: usize = 0;
    while len - offset >= 16
        invariant
            offset <= len,
            len <= alen,
            len <= blen,
            alen == a@.len(),
            blen == b@.len(),
            len == if alen < blen {
                alen
            } else {
                blen
            },
            forall|j: int| 0 <= j < offset ==> a@[j] == b@[j],
        decreases len - offset,
    {
        let r = block_common_prefix(a, b, offset, 16);
        proof {
            assert forall|j: int| 0 <= j < offset + r implies a@[j] == b@[j] by {
                if j >= offset {
                    assert(a@[offset + (j - offset)] == b@[offset + (j - offset)]);
                }
            }
        }
        if r < 16 {
            return offset + r;
        }
        offset += 16;
    }
    let r = block_common_prefix(a, b, offset, len - offset);
    proof {
        assert forall|j: int| 0 <= j < offset + r implies a@[j] == b@[j] by {
            if j >= offset {
                assert(a@[offset + (j - offset)] == b@[offset + (j - offset)]);
            }
        }
    }
    offset + r
}

/// Scalar fallback: count matching bytes walking word-sized chunks.
pub fn count_same_bytes_scalar(a: &[u8], b: &[u8]) -> (r: usize)
    ensures
        is_common_prefix_len(a@, b@, r as int),
{
    let alen = a.len();
    let blen = b.len();
    let len = if alen < blen {
        alen
    } else {
        blen
    };
    let mut offset: usize = 0;
    while len - offset >= 8
        invariant
            offset <= len,
            len <= alen,
            len <= blen,
            alen == a@.len(),
            blen == b@.len(),
            len == if alen < blen {
                alen
            } else {
                blen
            },
            forall|j: int| 0 <= j < offset ==> a@[j] == b@[j],
        decreases len - offset,
    {
        let r = block_common_prefix(a, b, offset, 8);
        proof {
            assert forall|j: int| 0 <= j < offset + r implies a@[j] == b@[j] by {
                if j >= offset {
                    assert(a@[offset + (j - offset)] == b@[offset + (j - offset)]);
                }
            }
        }
        if r < 8 {
            return offset + r;
        }
        offset += 8;
    }
    let r = block_common_prefix(a, b, offset, len - offset);
    proof {
        assert forall|j: int| 0 <= j < offset + r implies a@[j] == b@[j] by {
            if j >= offset {
                assert(a@[offset + (j - offset)] == b@[offset + (j - offset)]);
            }
        }
    }
    offset + r
}

} // verus!
