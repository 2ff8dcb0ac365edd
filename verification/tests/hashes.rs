//! xxHash values, in one piece and in many.
use lz4_rs::frame::compress::new_xxh32;
use lz4_rs::xxh::{
    xxh32, xxh32_canonical_from_hash, xxh32_digest, xxh32_hash_from_canonical, xxh32_reset,
    xxh32_update, xxh64, xxh64_canonical_from_hash, xxh64_digest, xxh64_hash_from_canonical,
    xxh64_reset, xxh64_update, Xxh64State,
};

const SPAM: &[u8] = b"Nobody inspects the spammish repetition";

#[test]
fn xxh32_known_values() {
    assert_eq!(xxh32(b"", 0), 0x02CC_5D05);
    assert_eq!(xxh32(b"a", 0), 0x550D_7456);
    assert_eq!(xxh32(b"abc", 0), 0x32D1_53FF);
    assert_eq!(xxh32(SPAM, 0), 0xE229_3B2F);
}

#[test]
fn xxh64_known_values() {
    assert_eq!(xxh64(b"", 0), 0xEF46_DB37_51D8_E999);
    assert_eq!(xxh64(b"a", 0), 0xD24E_C4F1_A98C_6E5B);
    assert_eq!(xxh64(b"abc", 0), 0x44BC_2CF5_AD77_0999);
    assert_eq!(xxh64(SPAM, 0), 0xFBCE_A83C_8A37_8BF1);
}

#[test]
fn xxh32_in_pieces_equals_xxh32_in_one() {
    let data: Vec<u8> = (0..300u32).map(|i| (i * 7 + i / 11) as u8).collect();
    for step in 1..40usize {
        for seed in [0u32, 1, 0x9E37_79B1] {
            let mut s = new_xxh32();
            xxh32_reset(&mut s, seed);
            for piece in data.chunks(step) {
                xxh32_update(&mut s, piece);
            }
            assert_eq!(xxh32_digest(&s), xxh32(&data, seed));
        }
    }
}

#[test]
fn xxh64_in_pieces_equals_xxh64_in_one() {
    let data: Vec<u8> = (0..300u32).map(|i| (i * 13 + i / 7) as u8).collect();
    for step in 1..70usize {
        let mut s = Xxh64State {
            total_len: 0,
            v1: 0,
            v2: 0,
            v3: 0,
            v4: 0,
            mem: [0; 32],
            memsize: 0,
            reserved: [0; 2],
        };
        xxh64_reset(&mut s, 42);
        for piece in data.chunks(step) {
            xxh64_update(&mut s, piece);
        }
        assert_eq!(xxh64_digest(&s), xxh64(&data, 42));
    }
}

#[test]
fn canonical_forms_are_high_byte_first_and_read_back() {
    assert_eq!(xxh32_canonical_from_hash(0x0102_0304), [1, 2, 3, 4]);
    assert_eq!(xxh32_hash_from_canonical(&[1, 2, 3, 4]), 0x0102_0304);
    assert_eq!(xxh64_canonical_from_hash(0x0102_0304_0506_0708), [1, 2, 3, 4, 5, 6, 7, 8]);
    assert_eq!(xxh64_hash_from_canonical(&[1, 2, 3, 4, 5, 6, 7, 8]), 0x0102_0304_0506_0708);
    let h = xxh64(SPAM, 3);
    assert_eq!(xxh64_hash_from_canonical(&xxh64_canonical_from_hash(h)), h);
}
