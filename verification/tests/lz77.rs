use rpack::lz77::{
    decompress_lz77_in_place, lz77_compress, lz77_decompress, LZ77Token, StreamError,
    STREAM_BUFFER,
};

#[test]
fn test_compress_decompress() {
    let input_data = b"ABABABAABACBAB\0";

    println!("Test: {:?}", input_data);
    let compressed = lz77_compress(input_data);
    let decompressed = lz77_decompress(&compressed);
    assert_eq!(input_data.to_vec(), decompressed);
}

#[test]
fn test_empty_input() {
    let input_data = b"\0";

    println!("Empty: {:?}", input_data);
    let compressed = lz77_compress(input_data);
    let decompressed = lz77_decompress(&compressed);
    assert_eq!(input_data.to_vec(), decompressed);
}

#[test]
fn test_single_character() {
    let input_data = b"A\0";

    println!("Single character: {:?}\0", input_data);
    let compressed = lz77_compress(input_data);
    let decompressed = lz77_decompress(&compressed);
    assert_eq!(input_data.to_vec(), decompressed);
}

#[test]
fn test_repeated_patterns() {
    let input_data = b"AAABBBCCCABC\0";
    println!("Repeated: {:?}", input_data);
    let compressed = lz77_compress(input_data);
    let decompressed = lz77_decompress(&compressed);
    assert_eq!(input_data.to_vec(), decompressed);
}

#[test]
fn lz77_exact_tokens() {
    // "AAAB": literal A, then a match of length 2 at distance 1 followed by B
    let tokens = lz77_compress(b"AAAB");
    assert_eq!(
        tokens,
        vec![
            LZ77Token { offset: 0, length: 0, next_byte: b'A' },
            LZ77Token { offset: 1, length: 2, next_byte: b'B' },
        ]
    );
    assert_eq!(lz77_decompress(&tokens), b"AAAB".to_vec());
}

#[test]
fn lz77_nothing_in_nothing_out() {
    assert!(lz77_compress(b"").is_empty());
    assert!(lz77_decompress(&[]).is_empty());
}

#[test]
fn lz77_match_to_the_end_adds_a_zero() {
    // the last token's literal lies past the end and is written as zero
    let tokens = lz77_compress(b"AA");
    assert_eq!(tokens.len(), 2);
    assert_eq!(tokens[1], LZ77Token { offset: 1, length: 1, next_byte: 0 });
    assert_eq!(lz77_decompress(&tokens), b"AA\0".to_vec());
}

#[test]
fn lz77_copy_from_before_the_start_reads_zero() {
    let tokens = [LZ77Token { offset: 5, length: 2, next_byte: b'x' }];
    assert_eq!(lz77_decompress(&tokens), vec![0, 0, b'x']);
}

#[test]
fn stream_literals_and_copies() {
    // "ab", then four bytes from two back, then "c"; the zero ends the stream
    let mut data = vec![b'a', b'b', 0x82, 4, b'c', 0, b'x'];
    assert_eq!(decompress_lz77_in_place(&mut data), Ok(()));
    assert_eq!(data, b"ababab".iter().chain(b"c").copied().collect::<Vec<u8>>());

    let mut empty: Vec<u8> = Vec::new();
    assert_eq!(decompress_lz77_in_place(&mut empty), Ok(()));
    assert!(empty.is_empty());

    let mut ended = vec![0u8, 1, 2];
    assert_eq!(decompress_lz77_in_place(&mut ended), Ok(()));
    assert!(ended.is_empty());

    // a copy of no bytes is accepted whatever its offset
    let mut nothing = vec![b'a', 0x85, 0];
    assert_eq!(decompress_lz77_in_place(&mut nothing), Ok(()));
    assert_eq!(nothing, vec![b'a']);
}

#[test]
fn stream_errors_leave_the_data() {
    let mut truncated = vec![b'a', 0x81];
    assert_eq!(decompress_lz77_in_place(&mut truncated), Err(StreamError::Truncated));
    assert_eq!(truncated, vec![b'a', 0x81]);

    let mut before_start = vec![b'a', 0x82, 1];
    assert_eq!(decompress_lz77_in_place(&mut before_start), Err(StreamError::BadOffset));
    assert_eq!(before_start, vec![b'a', 0x82, 1]);

    let mut no_distance = vec![b'a', 0x80, 1];
    assert_eq!(decompress_lz77_in_place(&mut no_distance), Err(StreamError::BadOffset));

    // one byte, then 255 copies of it fill the buffer; one more does not fit
    let mut full = vec![b'a', 0x81, 255];
    assert_eq!(decompress_lz77_in_place(&mut full), Ok(()));
    assert_eq!(full, vec![b'a'; STREAM_BUFFER]);
    let mut over = vec![b'a', 0x81, 255, b'b'];
    assert_eq!(decompress_lz77_in_place(&mut over), Err(StreamError::TooLong));
    assert_eq!(over, vec![b'a', 0x81, 255, b'b']);
    let mut over_by_copy = vec![b'a', b'a', 0x81, 255];
    assert_eq!(decompress_lz77_in_place(&mut over_by_copy), Err(StreamError::TooLong));
}
