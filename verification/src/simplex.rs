//! Byte layout of the simplex snapshot codec.
//!
//! Each active facet row sums to one, so only its first `k - 1` coordinates are
//! stored (little-endian `f32` words). This module moves those stored words
//! between a coordinate matrix (held as `f32` bit patterns) and bytes. Two parts
//! of the full codec are floating-point and are not done here: the check that
//! every active row sums to one before encoding, and the restoration of the
//! implied last active coordinate as `1 - Σ` after decoding.

use vstd::prelude::*;
use crate::constants::{K_MAX, MAX_SLICES};
use crate::wire::{le_u32, lemma_le_u32_round_trip, push_le_u32, read_le_u32, u32_of_le};

verus! {

/// The active dimension of facet `s`: its entry of `slice_dims` (zero past the end),
/// capped by `k_max` and by `K_MAX`.
pub open spec fn active_dim(slice_dims: Seq<u8>, s: int, k_max: int) -> int {
    let d = if 0 <= s < slice_dims.len() {
        slice_dims[s] as int
    } else {
        0
    };
    let d1 = if d < k_max {
        d
    } else {
        k_max
    };
    if d1 < K_MAX {
        d1
    } else {
        K_MAX as int
    }
}

/// The number of coordinates stored for a facet of active dimension `k`.
pub open spec fn stored_count(k: int) -> int {
    if k >= 1 {
        k - 1
    } else {
        0
    }
}

/// The number of words stored for the facets before `s`.
pub open spec fn stored_before(slice_dims: Seq<u8>, s: int, k_max: int) -> int
    decreases s,
{
    if s <= 0 {
        0
    } else {
        stored_before(slice_dims, s - 1, k_max) + stored_count(active_dim(slice_dims, s - 1, k_max))
    }
}

/// The little-endian words of the first `n` entries of a row.
pub open spec fn row_bytes(row: [u32; K_MAX], n: int) -> Seq<u8>
    decreases n,
{
    if n <= 0 {
        Seq::empty()
    } else {
        row_bytes(row, n - 1) + le_u32(row[n - 1])
    }
}

/// The encoding of the first `s` facets of a coordinate matrix.
pub open spec fn codec_bytes(m: [[u32; K_MAX]; MAX_SLICES], slice_dims: Seq<u8>, s: int) -> Seq<u8>
    decreases s,
{
    if s <= 0 {
        Seq::empty()
    } else {
        codec_bytes(m, slice_dims, s - 1) + row_bytes(
            m[s - 1],
            stored_count(active_dim(slice_dims, s - 1, K_MAX as int)),
        )
    }
}

/// The word a decoder reads for entry `i` of facet `s`.
pub open spec fn stored_word(data: Seq<u8>, slice_dims: Seq<u8>, k_max: int, s: int, i: int) -> u32 {
    let p = 4 * (stored_before(slice_dims, s, k_max) + i);
    u32_of_le(data.subrange(p, p + 4))
}

/// Simplex-constrained lossless codec: the stored-word layer.
pub struct SimplexCodec;

impl SimplexCodec {
    /// Writes the stored words of a coordinate matrix: the first `k - 1` words of each facet
    /// row, little-endian, facet after facet (`k` is the facet's active dimension).
    ///
    /// Rows are written whatever they sum to: the check that each active row sums to one
    /// is floating-point and is not made here.
    pub fn encode_stored_words(m: &[[u32; K_MAX]; MAX_SLICES], slice_dims: &[u8]) -> (r: Vec<u8>)
        ensures
            r@ == codec_bytes(*m, slice_dims@, MAX_SLICES as int),
    {
        let mut out: Vec<u8> = Vec::new();
        let mut s: usize = 0;
        while s < MAX_SLICES
            invariant
                s <= MAX_SLICES,
                out@ == codec_bytes(*m, slice_dims@, s as int),
            decreases MAX_SLICES - s,
        {
            let d: usize = if s < slice_dims.len() {
                slice_dims[s] as usize
            } else {
                0
            };
            let k: usize = if d < K_MAX {
                d
            } else {
                K_MAX
            };
            let n_stored: usize = if k >= 1 {
                k - 1
            } else {
                0
            };
            assert(n_stored == stored_count(active_dim(slice_dims@, s as int, K_MAX as int)));
            let ghost before = out@;
            let mut i: usize = 0;
            while i < n_stored
                invariant
                    s < MAX_SLICES,
                    n_stored <= K_MAX,
                    i <= n_stored,
                    out@ == before + row_bytes(m[s as int], i as int),
                decreases n_stored - i,
            {
                push_le_u32(&mut out, m[s][i]);
                i = i + 1;
            }
            s = s + 1;
        }
        out
    }

    /// Reads the stored words back into a coordinate matrix.
    ///
    /// The first `k - 1` entries of each facet row are the stored words (`k` is the facet's
    /// active dimension, further capped by `k_max`); every other entry is zero, the implied
    /// last active coordinate included: its value `1 - Σ` is floating-point and is not
    /// computed here.
    pub fn decode_stored_words(data: &[u8], slice_dims: &[u8], k_max: usize) -> (r: [[u32; K_MAX]; MAX_SLICES])
        requires
            data@.len() >= 4 * stored_before(slice_dims@, MAX_SLICES as int, k_max as int),
        ensures
            forall|s: int, i: int|
                0 <= s < MAX_SLICES && 0 <= i < K_MAX ==> #[trigger] r[s][i] == if i
                    < stored_count(active_dim(slice_dims@, s, k_max as int)) {
                    stored_word(data@, slice_dims@, k_max as int, s, i)
                } else {
                    0
                },
    {
        let mut out = [[0u32; 8]; 16];
        let data_len = data.len();
        let mut pos: usize = 0;
        let mut s: usize = 0;
        proof {
            lemma_stored_before_mono(slice_dims@, k_max as int, 0, MAX_SLICES as int);
        }
        while s < MAX_SLICES
            invariant
                s <= MAX_SLICES,
                data_len == data@.len(),
                data@.len() >= 4 * stored_before(slice_dims@, MAX_SLICES as int, k_max as int),
                pos == 4 * stored_before(slice_dims@, s as int, k_max as int),
                forall|t: int, i: int|
                    0 <= t < s && 0 <= i < K_MAX ==> #[trigger] out[t][i] == if i < stored_count(
                        active_dim(slice_dims@, t, k_max as int),
                    ) {
                        stored_word(data@, slice_dims@, k_max as int, t, i)
                    } else {
                        0
                    },
                forall|t: int, i: int| s <= t < MAX_SLICES && 0 <= i < K_MAX ==> #[trigger] out[t][i] == 0,
            decreases MAX_SLICES - s,
        {
            let d: usize = if s < slice_dims.len() {
                slice_dims[s] as usize
            } else {
                0
            };
            let d1: usize = if d < k_max {
                d
            } else {
                k_max
            };
            let k: usize = if d1 < K_MAX {
                d1
            } else {
                K_MAX
            };
            let n_stored: usize = if k >= 1 {
                k - 1
            } else {
                0
            };
            assert(n_stored == stored_count(active_dim(slice_dims@, s as int, k_max as int)));
            proof {
                lemma_stored_before_mono(slice_dims@, k_max as int, s + 1, MAX_SLICES as int);
            }
            let mut row = [0u32; 8];
            let mut i: usize = 0;
            while i < n_stored
                invariant
                    s < MAX_SLICES,
                    n_stored <= K_MAX,
                    n_stored == stored_count(active_dim(slice_dims@, s as int, k_max as int)),
                    i <= n_stored,
                    stored_before(slice_dims@, s + 1, k_max as int) == stored_before(
                        slice_dims@,
                        s as int,
                        k_max as int,
                    ) + n_stored,
                    data_len == data@.len(),
                    data@.len() >= 4 * stored_before(slice_dims@, s + 1, k_max as int),
                    pos == 4 * (stored_before(slice_dims@, s as int, k_max as int) + i),
                    forall|j: int|
                        0 <= j < i ==> #[trigger] row[j] == stored_word(
                            data@,
                            slice_dims@,
                            k_max as int,
                            s as int,
                            j,
                        ),
                    forall|j: int| i <= j < K_MAX ==> #[trigger] row[j] == 0,
                decreases n_stored - i,
            {
                let v = read_le_u32(data, pos);
                row[i] = v;
                pos = pos + 4;
                i = i + 1;
            }
            out[s] = row;
            s = s + 1;
        }
        out
    }
}

proof fn lemma_stored_before_mono(slice_dims: Seq<u8>, k_max: int, a: int, b: int)
    requires
        0 <= a <= b,
    ensures
        stored_before(slice_dims, a, k_max) <= stored_before(slice_dims, b, k_max),
    decreases b - a,
{
    if a < b {
        lemma_stored_before_mono(slice_dims, k_max, a, b - 1);
    }
}

proof fn lemma_row_bytes_len(row: [u32; K_MAX], n: int)
    requires
        0 <= n,
    ensures
        row_bytes(row, n).len() == 4 * n,
    decreases n,
{
    if n > 0 {
        lemma_row_bytes_len(row, n - 1);
    }
}

proof fn lemma_row_bytes_word(row: [u32; K_MAX], n: int, i: int)
    requires
        0 <= i < n,
    ensures
        row_bytes(row, n).subrange(4 * i, 4 * i + 4) =~= le_u32(row[i]),
    decreases n,
{
    lemma_row_bytes_len(row, n - 1);
    if i < n - 1 {
        lemma_row_bytes_word(row, n - 1, i);
        assert(row_bytes(row, n).subrange(4 * i, 4 * i + 4) =~= row_bytes(row, n - 1).subrange(
            4 * i,
            4 * i + 4,
        ));
    }
}

proof fn lemma_codec_bytes_len(m: [[u32; K_MAX]; MAX_SLICES], slice_dims: Seq<u8>, s: int)
    requires
        0 <= s,
    ensures
        codec_bytes(m, slice_dims, s).len() == 4 * stored_before(slice_dims, s, K_MAX as int),
    decreases s,
{
    if s > 0 {
        lemma_codec_bytes_len(m, slice_dims, s - 1);
        lemma_row_bytes_len(m[s - 1], stored_count(active_dim(slice_dims, s - 1, K_MAX as int)));
    }
}

proof fn lemma_codec_bytes_word(
    m: [[u32; K_MAX]; MAX_SLICES],
    slice_dims: Seq<u8>,
    n: int,
    s: int,
    i: int,
)
    requires
        0 <= s < n,
        0 <= i < stored_count(active_dim(slice_dims, s, K_MAX as int)),
    ensures
        ({
            let p = 4 * (stored_before(slice_dims, s, K_MAX as int) + i);
            codec_bytes(m, slice_dims, n).subrange(p, p + 4) =~= le_u32(m[s][i])
        }),
    decreases n,
{
    let p = 4 * (stored_before(slice_dims, s, K_MAX as int) + i);
    lemma_codec_bytes_len(m, slice_dims, n - 1);
    lemma_stored_before_mono(slice_dims, K_MAX as int, 0, s);
    lemma_row_bytes_len(m[n - 1], stored_count(active_dim(slice_dims, n - 1, K_MAX as int)));
    assert(stored_before(slice_dims, s + 1, K_MAX as int) == stored_before(slice_dims, s, K_MAX as int)
        + stored_count(active_dim(slice_dims, s, K_MAX as int)));
    if s < n - 1 {
        lemma_codec_bytes_word(m, slice_dims, n - 1, s, i);
        lemma_stored_before_mono(slice_dims, K_MAX as int, s + 1, n - 1);
        assert(p + 4 <= codec_bytes(m, slice_dims, n - 1).len());
        assert(codec_bytes(m, slice_dims, n) == codec_bytes(m, slice_dims, n - 1) + row_bytes(
            m[n - 1],
            stored_count(active_dim(slice_dims, n - 1, K_MAX as int)),
        ));
        assert(codec_bytes(m, slice_dims, n).subrange(p, p + 4) =~= codec_bytes(
            m,
            slice_dims,
            n - 1,
        ).subrange(p, p + 4));
    } else {
        lemma_row_bytes_word(m[s], stored_count(active_dim(slice_dims, s, K_MAX as int)), i);
        let q = 4 * stored_before(slice_dims, s, K_MAX as int);
        assert(codec_bytes(m, slice_dims, n).subrange(p, p + 4) =~= row_bytes(
            m[s],
            stored_count(active_dim(slice_dims, s, K_MAX as int)),
        ).subrange(4 * i, 4 * i + 4));
    }
}

/// Reading back the stored words of a matrix gives every stored coordinate, bit for bit.
pub proof fn lemma_codec_round_trip(
    m: [[u32; K_MAX]; MAX_SLICES],
    slice_dims: Seq<u8>,
    s: int,
    i: int,
)
    requires
        0 <= s < MAX_SLICES,
        0 <= i < stored_count(active_dim(slice_dims, s, K_MAX as int)),
    ensures
        codec_bytes(m, slice_dims, MAX_SLICES as int).len() == 4 * stored_before(
            slice_dims,
            MAX_SLICES as int,
            K_MAX as int,
        ),
        stored_word(codec_bytes(m, slice_dims, MAX_SLICES as int), slice_dims, K_MAX as int, s, i)
            == m[s][i],
{
    lemma_codec_bytes_len(m, slice_dims, MAX_SLICES as int);
    lemma_codec_bytes_word(m, slice_dims, MAX_SLICES as int, s, i);
    lemma_le_u32_round_trip(m[s][i]);
}

} // verus!
