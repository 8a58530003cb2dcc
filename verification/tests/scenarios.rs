use chunkstore::{get_chunks, Bundle, MAX_CHUNK_SIZE};

#[test]
fn chunk_count_is_ceiling_of_length() {
    for (len, expected) in [
        (0usize, 0usize),
        (1, 1),
        (MAX_CHUNK_SIZE - 1, 1),
        (MAX_CHUNK_SIZE, 1),
        (MAX_CHUNK_SIZE + 1, 2),
        (2 * MAX_CHUNK_SIZE, 2),
        (2500, 3),
        (4 * MAX_CHUNK_SIZE + 17, 5),
    ] {
        let data = vec![0u8; len];
        let (chunks, size) = get_chunks(&data);
        assert_eq!(chunks.len(), expected);
        assert_eq!(size, len);
    }
}

#[test]
fn scenario_unaligned_source() {
    // A 2500-byte source splits into 3 chunks that reassemble to
    // 1024, 1024 and 452 bytes in order, totalling the source exactly.
    let mut data = Vec::with_capacity(2500);
    for i in 0..2500usize {
        data.push((i % 256) as u8);
    }
    let bundle = Bundle::from_bytes(String::from("source"), &data);
    assert_eq!(bundle.chunks().len(), 3);
    assert_eq!(bundle.size(), 2500);
    assert_eq!(bundle.chunks()[0].size(), 1024);
    assert_eq!(bundle.chunks()[1].size(), 1024);
    assert_eq!(bundle.chunks()[2].size(), 452);

    let out = bundle.to_bytes();
    assert_eq!(out.len(), 2500);
    assert_eq!(out[..1024], data[..1024]);
    assert_eq!(out[1024..2048], data[1024..2048]);
    assert_eq!(out[2048..], data[2048..]);
    assert_eq!(out, data);
}

#[test]
fn scenario_empty_source() {
    let data: Vec<u8> = Vec::new();
    let bundle = Bundle::from_bytes(String::from("source"), &data);
    assert_eq!(bundle.chunks().len(), 0);
    assert_eq!(bundle.size(), 0);
    assert_eq!(bundle.to_bytes().len(), 0);
}

#[test]
fn every_stored_buffer_fills_the_capacity() {
    let data = vec![250u8; 1500];
    let (chunks, _) = get_chunks(&data);
    assert_eq!(chunks.len(), 2);
    for chunk in &chunks {
        assert_eq!(chunk.buffer().len(), MAX_CHUNK_SIZE);
    }
    assert_eq!(chunks[0].size(), MAX_CHUNK_SIZE);
    assert_eq!(chunks[1].size(), 1500 - MAX_CHUNK_SIZE);
    // The final, short chunk is stored zero-padded.
    assert!(chunks[1].buffer()[476..].iter().all(|b| *b == 0));
}
