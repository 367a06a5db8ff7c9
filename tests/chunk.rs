use file_core::{split_bytes, Chunk, ChunkError, Chunker};

fn pairs(chunks: &[Chunk]) -> Vec<(usize, String)> {
    chunks.iter().map(|c| (c.number, c.text.clone())).collect()
}

#[test]
fn ten_bytes_in_fours() {
    let chunks = split_bytes(b"0123456789", 4).unwrap();
    assert_eq!(
        pairs(&chunks),
        vec![(1, "0123".to_string()), (2, "4567".to_string()), (3, "89".to_string())]
    );
    assert_eq!(chunks[2].bytes, b"89".to_vec());
}

#[test]
fn empty_content_gives_no_chunks() {
    for size in [1usize, 4, 8192] {
        assert!(split_bytes(b"", size).unwrap().is_empty());
    }
}

#[test]
fn zero_chunk_size_is_refused() {
    assert!(matches!(split_bytes(b"abc", 0), Err(ChunkError::ZeroChunkSize)));
    assert!(matches!(Chunker::new(0), Err(ChunkError::ZeroChunkSize)));
}

#[test]
fn exact_multiple_has_no_trailing_chunk() {
    let chunks = split_bytes(b"abcdef", 3).unwrap();
    assert_eq!(pairs(&chunks), vec![(1, "abc".to_string()), (2, "def".to_string())]);
}

#[test]
fn size_larger_than_content_gives_one_chunk() {
    let chunks = split_bytes(b"abc", 100).unwrap();
    assert_eq!(pairs(&chunks), vec![(1, "abc".to_string())]);
}

#[test]
fn chunks_rejoin_to_the_content_and_are_numbered_from_one() {
    let data: Vec<u8> = (0..10000u32).map(|i| (i % 256) as u8).collect();
    for size in [1usize, 3, 7, 4096, 8192, 9999, 10000, 20000] {
        let chunks = split_bytes(&data, size).unwrap();
        let joined: Vec<u8> = chunks.iter().flat_map(|c| c.bytes.iter().copied()).collect();
        assert_eq!(joined, data);
        for (i, c) in chunks.iter().enumerate() {
            assert_eq!(c.number, i + 1);
            assert!(!c.bytes.is_empty() && c.bytes.len() <= size);
        }
        assert_eq!(chunks.len(), (data.len() + size - 1) / size);
    }
}

#[test]
fn invalid_utf8_is_replaced_in_text_but_kept_in_bytes() {
    let chunks = split_bytes(&[0xff, b'a'], 8).unwrap();
    assert_eq!(chunks[0].text, "\u{FFFD}a");
    assert_eq!(chunks[0].bytes, vec![0xff, b'a']);
    let e = "é".as_bytes();
    let chunks = split_bytes(e, 1).unwrap();
    assert_eq!(chunks.len(), 2);
    assert_eq!(chunks[0].text, "\u{FFFD}");
    assert_eq!(chunks[1].text, "\u{FFFD}");
    assert_eq!([chunks[0].bytes.clone(), chunks[1].bytes.clone()].concat(), e.to_vec());
}

#[test]
fn streamed_blocks_give_the_same_chunks() {
    let data: Vec<u8> = (0..30000u32).map(|i| b'a' + (i % 26) as u8).collect();
    let mut c = Chunker::new(1000).unwrap();
    let mut pos = 0;
    for step in [1usize, 999, 8192, 8192, 5, 20000] {
        let end = std::cmp::min(pos + step, data.len());
        c.feed(&data[pos..end]);
        pos = end;
    }
    assert_eq!(c.fed_len(), data.len());
    let streamed = c.finish();
    let whole = split_bytes(&data, 1000).unwrap();
    assert_eq!(pairs(&streamed), pairs(&whole));
    assert_eq!(streamed.len(), 30);
}
