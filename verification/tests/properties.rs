use lz4_kit::block::{
    compress, compress_prepend_size, decode_mix_for_block, decompress, decompress_into,
    decompress_into_with_profile, decompress_size_prepended, profile_counter_value,
    read_varint_len, DecodeProfile, DecompressError,
};

fn tiled_json_payload(size: usize) -> Vec<u8> {
    let pat =
        br#"{"id":1234567,"name":"block-codec-benchmark","kind":"payload","values":[1,2,3,4,5,6,7]}"#;
    assert_eq!(pat.len(), 87);
    let mut out = vec![0u8; size];
    for (i, b) in out.iter_mut().enumerate() {
        *b = pat[i % pat.len()];
    }
    out
}

#[test]
fn repetitive_json_roundtrip_256k() {
    let input = tiled_json_payload(262144);
    assert_eq!(input.len(), 262144);
    let compressed = compress(&input);
    assert!(compressed.len() < 262144, "repetitive input must compress");
    let restored = decompress(&compressed, 262144).expect("decompress");
    assert_eq!(restored, input);
}

#[test]
fn prepended_size_roundtrip() {
    let input = tiled_json_payload(4096);
    let compressed = compress_prepend_size(&input);
    let restored = decompress_size_prepended(&compressed).expect("decompress prepend");
    assert_eq!(restored, input);
}

#[test]
fn decompress_into_reuses_buffer() {
    let input = tiled_json_payload(1024);
    let compressed = compress(&input);
    let mut buffer = vec![0u8; 1024];
    let written = decompress_into(&compressed, &mut buffer).expect("decompress_into");
    assert_eq!(written, 1024);
    assert_eq!(buffer, input);
}

#[test]
fn truncation_is_rejected() {
    let input = tiled_json_payload(2048);
    let compressed = compress(&input);
    for k in 0..compressed.len() {
        let err = decompress(&compressed[..k], input.len())
            .expect_err("truncated stream must not decode");
        assert!(
            err == DecompressError::CorruptInput || err == DecompressError::LengthMismatch,
            "unexpected error at cut {k}: {err:?}"
        );
    }
}

#[test]
fn zero_offset_is_corrupt() {
    // Token with no literals, then a zero offset.
    let stream = [0x04u8, 0x00, 0x00];
    assert_eq!(
        decompress(&stream, 64).expect_err("zero offset"),
        DecompressError::CorruptInput
    );
}

#[test]
fn truncated_literal_run_is_corrupt() {
    // Token promising one literal byte, but the stream ends.
    let stream = [0x10u8];
    assert_eq!(
        decompress(&stream, 1).expect_err("missing literal"),
        DecompressError::CorruptInput
    );
}

#[test]
fn oversized_literals_overflow_output() {
    let data: Vec<u8> = (0u8..100).collect();
    let compressed = compress(&data);
    assert_eq!(
        decompress(&compressed, 10).expect_err("overflow"),
        DecompressError::OutputOverflow
    );
}

#[test]
fn wrong_expected_size_is_length_mismatch() {
    let data: Vec<u8> = (0u8..100).collect();
    let compressed = compress(&data);
    assert_eq!(
        decompress(&compressed, 105).expect_err("length mismatch"),
        DecompressError::LengthMismatch
    );
}

#[test]
fn short_prepended_input_is_corrupt() {
    assert_eq!(
        decompress_size_prepended(&[1, 2, 3]).expect_err("too short"),
        DecompressError::CorruptInput
    );
}

#[test]
fn mix_report_conserves_bytes() {
    let input = tiled_json_payload(8192);
    let compressed = compress(&input);
    let mix = decode_mix_for_block(&compressed, input.len()).expect("mix");
    assert_eq!(mix.literal_bytes + mix.match_bytes, input.len() as u64);
    assert_eq!(
        mix.off_1_bytes + mix.off_2_bytes + mix.off_3_7_bytes + mix.off_8_15_bytes
            + mix.off_ge_16_bytes,
        mix.match_bytes
    );
    assert_eq!(
        mix.overlap_path_bytes + mix.non_overlap_path_bytes,
        mix.match_bytes
    );
    assert!(mix.match_bytes > 0, "repetitive input must produce matches");
}

#[test]
fn mix_report_rejects_bad_blocks() {
    let input = tiled_json_payload(512);
    let compressed = compress(&input);
    assert!(decode_mix_for_block(&compressed, input.len() + 1).is_none());
    assert!(decode_mix_for_block(&compressed[..compressed.len() - 1], input.len()).is_none());
}

#[test]
fn profile_conserves_bytes_and_resets() {
    let input = tiled_json_payload(8192);
    let compressed = compress(&input);
    let mut buffer = vec![0u8; input.len()];
    let mut profile = DecodeProfile::new();
    decompress_into_with_profile(&compressed, &mut buffer, &mut profile).expect("decode");
    assert_eq!(
        profile.literal_bytes + profile.match_bytes,
        input.len() as u64
    );
    assert_eq!(profile.copy_from_dict_calls, 0);

    let snapshot = profile.read();
    assert_eq!(snapshot, profile);
    assert_eq!(profile_counter_value(&profile, 7), profile.literal_bytes);
    assert_eq!(profile_counter_value(&profile, 8), profile.match_bytes);
    assert_eq!(profile_counter_value(&profile, 6), 0);
    assert_eq!(profile_counter_value(&profile, 999), 0);

    // A second run accumulates.
    decompress_into_with_profile(&compressed, &mut buffer, &mut profile).expect("decode again");
    assert_eq!(
        profile.literal_bytes + profile.match_bytes,
        2 * input.len() as u64
    );

    profile.reset();
    assert_eq!(profile, DecodeProfile::new());
}

#[test]
fn varint_length_resolution() {
    // A base below 15 stands alone and consumes nothing.
    let mut ip = 0usize;
    assert_eq!(read_varint_len(&[9, 9, 9], &mut ip, 7), Some(7));
    assert_eq!(ip, 0);

    // Base 15 pulls in extension bytes: 15 + 255 + 255 + 3.
    let mut ip = 0usize;
    assert_eq!(read_varint_len(&[255, 255, 3], &mut ip, 15), Some(528));
    assert_eq!(ip, 3);

    // A truncated extension fails.
    let mut ip = 0usize;
    assert_eq!(read_varint_len(&[255, 255], &mut ip, 15), None);
}
