use lz4_kit::block::{compress, compress_prepend_size, decompress, decompress_size_prepended};

#[test]
fn block_roundtrip_variants() {
    let data = b"lz4 block parity sample payload repeated repeated repeated";
    let compressed = compress(data);
    let restored = decompress(&compressed, data.len()).expect("decompress");
    assert_eq!(restored, data);

    let compressed2 = compress_prepend_size(data);
    let restored2 = decompress_size_prepended(&compressed2).expect("decompress prepend");
    assert_eq!(restored2, data);
}

#[test]
fn block_matches_lz4_flex_output_roundtrip() {
    let data = b"cross crate differential check payload 1234567890";
    let compressed = lz4_flex::block::compress(data);
    let restored = decompress(&compressed, data.len()).expect("decompress lz4_flex block");
    assert_eq!(restored, data);

    let compressed_local = compress(data);
    let restored_upstream = lz4_flex::block::decompress(&compressed_local, data.len())
        .expect("lz4_flex decompress local output");
    assert_eq!(restored_upstream, data);
}

#[test]
fn size_prepended_matches_lz4_flex() {
    let data = b"size prepended cross check abcabcabcabcabcabcabcabc";
    let upstream = lz4_flex::block::compress_prepend_size(data);
    let restored = decompress_size_prepended(&upstream).expect("decode upstream prepend");
    assert_eq!(restored, data);

    let local = compress_prepend_size(data);
    let restored_upstream =
        lz4_flex::block::decompress_size_prepended(&local).expect("upstream decode local");
    assert_eq!(restored_upstream, data);
}

#[test]
fn empty_input_roundtrip() {
    let compressed = compress(b"");
    let restored = decompress(&compressed, 0).expect("decompress empty");
    assert!(restored.is_empty());

    let prep = compress_prepend_size(b"");
    let restored2 = decompress_size_prepended(&prep).expect("decompress empty prepend");
    assert!(restored2.is_empty());
}

#[test]
fn incompressible_input_roundtrip() {
    // No repeated 4-byte groups: everything stays literal.
    let data: Vec<u8> = (0u8..=255).collect();
    let compressed = compress(&data);
    let restored = decompress(&compressed, data.len()).expect("decompress literals");
    assert_eq!(restored, data);
}
