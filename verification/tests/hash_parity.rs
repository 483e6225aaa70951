use std::hash::Hasher;

use lz4_kit::hash::XxHash32;

#[test]
fn known_vector_empty() {
    assert_eq!(XxHash32::oneshot(0, b""), 0x02cc_5d05);
}

#[test]
fn matches_twox_hash_known_input() {
    let data = b"Hello, world!";
    assert_eq!(
        XxHash32::oneshot(0, data),
        twox_hash::XxHash32::oneshot(0, data)
    );
}

#[test]
fn streaming_matches_oneshot() {
    let data = b"xxhash32 streaming test data for lz4 frame";
    let expected = XxHash32::oneshot(42, data);
    let mut h = XxHash32::with_seed(42);
    h.write(&data[..7]);
    h.write(&data[7..23]);
    h.write(&data[23..]);
    assert_eq!(h.finish_32(), expected);
}

#[test]
fn xxhash32_matches_twox_hash_oneshot() {
    let data = b"hash differential payload";
    let a = XxHash32::oneshot(0, data);
    let b = twox_hash::XxHash32::oneshot(0, data);
    assert_eq!(a, b);
}

#[test]
fn xxhash32_streaming_matches_twox_hash_streaming() {
    let data = b"streaming hash payload for chunked writes";

    let mut a = XxHash32::with_seed(42);
    a.write(&data[..5]);
    a.write(&data[5..17]);
    a.write(&data[17..]);

    let mut b = twox_hash::XxHash32::with_seed(42);
    b.write(&data[..5]);
    b.write(&data[5..17]);
    b.write(&data[17..]);

    assert_eq!(a.finish_32(), b.finish_32());
}

#[test]
fn streaming_three_chunks_of_43_byte_string() {
    // 43 bytes in all, split as "abc", "defgh", and the rest.
    let full = b"abcdefgh and thirty-five more bytes padd..X";
    assert_eq!(full.len(), 43);
    let mut h = lz4_kit::hash::XxHash32::with_seed(42);
    h.write(&full[..3]);
    h.write(&full[3..8]);
    h.write(&full[8..]);
    assert_eq!(h.finish_32(), XxHash32::oneshot(42, full));
}

#[test]
fn chunk_invariance_all_splits() {
    let data = b"chunk invariance over every split point of this buffer 0123456789";
    let expected = XxHash32::oneshot(7, data);
    for split in 0..=data.len() {
        let mut h = XxHash32::with_seed(7);
        h.write(&data[..split]);
        h.write(&data[split..]);
        assert_eq!(h.finish_32(), expected);
    }
}

#[test]
fn stripe_boundary_writes() {
    // Land exactly on, just below and just above the 16-byte stripe.
    let data: Vec<u8> = (0u8..=63).collect();
    let expected = XxHash32::oneshot(0, &data);
    for first in [15usize, 16, 17, 31, 32, 33] {
        let mut h = XxHash32::with_seed(0);
        h.write(&data[..first]);
        h.write(&data[first..]);
        assert_eq!(h.finish_32(), expected, "split at {first}");
    }
}
