use lzrs::{find_longest_match, DecompressError, LZ, LZ77};

#[test]
fn compression_and_decompression() {
    let lz77: LZ77 = LZ77::new();

    let phrase: &[u8; 41] = b"Une phrase d'exemple Une phrase d'exemple";

    let compressed_data: Vec<u8> = lz77.compress(phrase);

    let decompressed_data: Vec<u8> = lz77.decompress(&compressed_data);

    assert_eq!(decompressed_data, phrase);
}

#[test]
fn empty_input() {
    let lz77: LZ77 = LZ77::new();
    assert_eq!(lz77.compress(b""), Vec::<u8>::new());
    assert_eq!(lz77.decompress(b""), Vec::<u8>::new());
}

#[test]
fn round_trip_plain_text() {
    let lz77: LZ77 = LZ77::new();
    let inputs: Vec<&[u8]> = vec![
        b"hello world",
        b"a",
        b"abcabcabcabcabc",
        b"the quick brown fox jumps over the lazy dog",
        b"\x01\x02\x03\x04\x05\x01\x02\x03\x04\x05",
    ];
    for input in inputs {
        let compressed: Vec<u8> = lz77.compress(input);
        assert_eq!(compressed.len() % 3, 0);
        assert_eq!(lz77.decompress(&compressed), input);
    }
}

#[test]
fn sentinel_zero_tail_may_be_dropped() {
    // A trailing zero byte is indistinguishable from the end-of-stream
    // sentinel; these inputs come back with the final zero stripped.
    let lz77: LZ77 = LZ77::new();
    assert_eq!(lz77.decompress(&lz77.compress(b"\x00")), b"");
    assert_eq!(lz77.decompress(&lz77.compress(b"a\x00")), b"a");
}

#[test]
fn sentinel_zero_tail_may_survive() {
    // When the final match runs to the end of the input, the encoder adds
    // its own sentinel and the trailing zero of the data survives the trip.
    let lz77: LZ77 = LZ77::new();
    let input: &[u8] = b"ab\x00ab\x00";
    assert_eq!(lz77.decompress(&lz77.compress(input)), input);
}

#[test]
fn match_finder_whole_history() {
    assert_eq!(find_longest_match(b"abcde", b"abcde12345"), (5, 5));
}

#[test]
fn match_finder_empty_history() {
    assert_eq!(find_longest_match(b"", b"abc"), (0, 0));
    assert_eq!(find_longest_match(b"", b""), (0, 0));
}

#[test]
fn match_finder_prefers_recent_occurrence() {
    // "ab" occurs at both ends of the history; the rightmost one wins.
    assert_eq!(find_longest_match(b"abab", b"ab"), (2, 2));
}

#[test]
fn token_encode() {
    let mut compressed_data: Vec<u8> = Vec::new();
    LZ77::encode(&mut compressed_data, 10, 3, b'a');
    assert_eq!(compressed_data, vec![10, 48, b'a']);
}

#[test]
fn token_encode_truncates_wide_fields() {
    // A distance of 4096 or a length of 16 does not fit the 12-bit and
    // 4-bit fields; the high bits are silently masked away.
    let mut compressed_data: Vec<u8> = Vec::new();
    LZ77::encode(&mut compressed_data, 4096, 16, b'z');
    assert_eq!(compressed_data, vec![0, 0, b'z']);
}

#[test]
fn token_decode_insufficient_history() {
    // The back-reference points 10 bytes before the start of an empty
    // buffer: the copy is skipped and only the literal is kept.
    let mut buffer: Vec<u8> = Vec::new();
    let chunk: [u8; 3] = [10, 48, b'a'];
    LZ77::decode(&mut buffer, &chunk);
    assert_eq!(buffer, vec![b'a']);
}

#[test]
fn token_decode_overlapping_run() {
    // Distance 1, length 5: each copied byte is read from the buffer one
    // position back, so a single 'a' grows into a run of six.
    let mut buffer: Vec<u8> = vec![b'a'];
    let chunk: [u8; 3] = [1, 80, b'x'];
    LZ77::decode(&mut buffer, &chunk);
    assert_eq!(buffer, vec![b'a', b'a', b'a', b'a', b'a', b'a', b'x']);
}

#[test]
fn round_trip_run() {
    let lz77: LZ77 = LZ77::new();
    let compressed: Vec<u8> = lz77.compress(b"aaaaaa");
    // literal 'a', then a one-byte match, then a three-byte match that
    // reaches the end of the input and carries the zero sentinel.
    assert_eq!(compressed, vec![0, 0, b'a', 1, 16, b'a', 3, 48, 0]);
    assert_eq!(lz77.decompress(&compressed), b"aaaaaa");
}

#[test]
fn decompress_tolerates_corrupt_back_reference() {
    // One token whose distance reaches before the start of the output:
    // the copy is dropped, the literal survives.
    let lz77: LZ77 = LZ77::new();
    assert_eq!(lz77.decompress(&[5, 32, b'A']), vec![b'A']);
}

#[test]
fn try_decompress_rejects_misaligned_stream() {
    assert_eq!(
        LZ77::try_decompress(&[1, 2]),
        Err(DecompressError::MalformedStream)
    );
    assert_eq!(
        LZ77::try_decompress(&[1, 2, 3, 4]),
        Err(DecompressError::MalformedStream)
    );
}

#[test]
fn try_decompress_accepts_whole_tokens() {
    let lz77: LZ77 = LZ77::new();
    let compressed: Vec<u8> = lz77.compress(b"hello hello");
    assert_eq!(LZ77::try_decompress(&compressed), Ok(b"hello hello".to_vec()));
}

#[test]
fn configuration_accessors() {
    let mut lz77: LZ77 = LZ77::new();
    assert_eq!(lz77.get_max_dictionary_size(), 4095);
    assert_eq!(lz77.get_lookahead_buffer_size(), 15);
    lz77.set_max_dictionary_size(100);
    lz77.set_lookahead_buffer_size(7);
    assert_eq!(lz77.get_max_dictionary_size(), 100);
    assert_eq!(lz77.get_lookahead_buffer_size(), 7);
    let copy: LZ77 = lz77.clone();
    assert_eq!(copy.get_max_dictionary_size(), 100);
    assert_eq!(copy.get_lookahead_buffer_size(), 7);
}

#[test]
fn long_input_with_clamped_history_window() {
    // 2000 bytes of varied, zero-free data: the cursor soon outruns the
    // 64-byte dictionary, so the history window must be clamped.
    let mut data: Vec<u8> = Vec::new();
    let mut x: u32 = 1;
    for _ in 0..2000 {
        x = (x * 31 + 7) % 251;
        data.push((x + 1) as u8);
    }
    let compressed: Vec<u8> = LZ77::compress(&data, 64, 15);
    assert_eq!(compressed.len() % 3, 0);
    assert_eq!(LZ77::decompress(&compressed), data);
}

#[test]
fn small_windows_still_round_trip() {
    // Tiny windows make for poor compression but the trip stays lossless.
    let compressed: Vec<u8> = LZ77::compress(b"banana banana", 2, 2);
    assert_eq!(LZ77::decompress(&compressed), b"banana banana");
}
