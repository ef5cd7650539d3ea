use sigma4_engine::constants::{K_MAX, MAX_SLICES};
use sigma4_engine::simplex::SimplexCodec;

/// A row whose first entries are `first` and whose next entry is `1 - Σ first`.
fn row(first: &[f32]) -> [u32; K_MAX] {
    let mut r = [0.0f32; K_MAX];
    let mut s = 0.0f32;
    for (i, &v) in first.iter().enumerate() {
        r[i] = v;
        s += v;
    }
    r[first.len()] = 1.0 - s;
    r.map(f32::to_bits)
}

fn dims(ks: &[u8]) -> [u8; MAX_SLICES] {
    let mut d = [0u8; MAX_SLICES];
    for (i, &k) in ks.iter().enumerate() {
        d[i] = k;
    }
    d
}

#[test]
fn decode_padding_columns_are_zero() {
    let mut m = [[0u32; K_MAX]; MAX_SLICES];
    m[0] = row(&[0.25, 0.25]);
    let dims = dims(&[3]);
    let enc = SimplexCodec::encode_stored_words(&m, &dims);
    let dec = SimplexCodec::decode_stored_words(&enc, &dims, K_MAX);
    for &v in dec[0][3..K_MAX].iter() {
        assert_eq!(f32::from_bits(v), 0.0, "padding column != 0");
    }
}

#[test]
fn encode_size_is_minimal() {
    let mut m = [[0u32; K_MAX]; MAX_SLICES];
    m[0] = row(&[0.2, 0.3]);
    let dims = dims(&[3]);
    let enc = SimplexCodec::encode_stored_words(&m, &dims);
    assert_eq!(enc.len(), 2 * 4);
}

#[test]
fn codec_k0_round_trip() {
    let m = [[0u32; K_MAX]; MAX_SLICES];
    let dims = dims(&[0]);
    let enc = SimplexCodec::encode_stored_words(&m, &dims);
    assert_eq!(enc.len(), 0, "k=0 编码应为空");
    let dec = SimplexCodec::decode_stored_words(&enc, &dims, K_MAX);
    for &v in &dec[0] {
        assert_eq!(f32::from_bits(v), 0.0, "k=0 解码应为全零");
    }
}

#[test]
fn codec_padding_zeros_after_decode() {
    let mut m = [[0u32; K_MAX]; MAX_SLICES];
    m[0] = row(&[0.25, 0.25]);
    let dims = dims(&[3]);
    let enc = SimplexCodec::encode_stored_words(&m, &dims);
    let dec = SimplexCodec::decode_stored_words(&enc, &dims, K_MAX);
    for &v in dec[0][3..K_MAX].iter() {
        assert_eq!(f32::from_bits(v), 0.0, "padding 列应为 0");
    }
}

#[test]
fn codec_stored_words_are_little_endian() {
    let mut m = [[0u32; K_MAX]; MAX_SLICES];
    m[0] = [0x0403_0201, 0x0807_0605, 0, 0, 0, 0, 0, 0];
    m[1] = [0x0C0B_0A09, 0, 0, 0, 0, 0, 0, 0];
    let dims = dims(&[3, 2]);
    let enc = SimplexCodec::encode_stored_words(&m, &dims);
    assert_eq!(enc, vec![1, 2, 3, 4, 5, 6, 7, 8, 9, 10, 11, 12]);
}

#[test]
fn stored_words_round_trip_bit_exact() {
    let mut m = [[0u32; K_MAX]; MAX_SLICES];
    m[0] = row(&[0.2, 0.3]);
    m[1] = row(&[0.1, 0.1, 0.1]);
    m[2] = row(&[0.5]);
    m[3] = row(&[0.1; 7]);
    let dims = dims(&[3, 4, 2, 8]);
    let enc = SimplexCodec::encode_stored_words(&m, &dims);
    assert_eq!(enc.len(), 4 * (2 + 3 + 1 + 7));
    let dec = SimplexCodec::decode_stored_words(&enc, &dims, K_MAX);
    for (s, &k) in dims.iter().enumerate() {
        let k = k as usize;
        for i in 0..K_MAX {
            if k >= 1 && i < k - 1 {
                assert_eq!(dec[s][i], m[s][i], "stored [{s}][{i}]");
            } else if i >= k {
                assert_eq!(dec[s][i], 0, "padding [{s}][{i}]");
            }
        }
    }
}

#[test]
fn codec_dims_above_k_max_are_capped() {
    let mut m = [[0u32; K_MAX]; MAX_SLICES];
    m[0] = [1, 2, 3, 4, 5, 6, 7, 8];
    let dims = dims(&[200]);
    let enc = SimplexCodec::encode_stored_words(&m, &dims);
    assert_eq!(enc.len(), 4 * 7);
    let dec = SimplexCodec::decode_stored_words(&enc, &dims, 4);
    assert_eq!(dec[0], [1, 2, 3, 0, 0, 0, 0, 0]);
}

#[test]
fn stored_words_k1_row_stores_nothing() {
    let mut m = [[0u32; K_MAX]; MAX_SLICES];
    m[0] = row(&[]);
    m[1] = row(&[0.25, 0.5]);
    let dims = dims(&[1, 3]);
    let enc = SimplexCodec::encode_stored_words(&m, &dims);
    assert_eq!(enc.len(), 2 * 4);
    let dec = SimplexCodec::decode_stored_words(&enc, &dims, K_MAX);
    for i in 1..K_MAX {
        assert_eq!(dec[0][i], 0, "padding [0][{i}]");
    }
    assert_eq!(dec[1][0], 0.25f32.to_bits());
    assert_eq!(dec[1][1], 0.5f32.to_bits());
}

#[test]
fn stored_words_keep_zero_weights_bit_exact() {
    let mut m = [[0u32; K_MAX]; MAX_SLICES];
    m[0] = row(&[0.0, 0.6, -0.0]);
    let dims = dims(&[4]);
    let enc = SimplexCodec::encode_stored_words(&m, &dims);
    let dec = SimplexCodec::decode_stored_words(&enc, &dims, K_MAX);
    assert_eq!(dec[0][0], 0.0f32.to_bits());
    assert_eq!(dec[0][1], 0.6f32.to_bits());
    assert_eq!(dec[0][2], 0x8000_0000);
}
