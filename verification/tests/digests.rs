use chunkstore::{calculate_digest, Bundle, Chunk, MAX_CHUNK_SIZE};

fn hex_of(bytes: &[u8]) -> String {
    let mut out = String::new();
    for b in bytes {
        out.push_str(&format!("{:02x}", b));
    }
    out
}

#[test]
fn digest_known_vector() {
    // SHA-256("abc"), the FIPS 180-2 test vector.
    let digest = calculate_digest(b"abc");
    assert_eq!(
        hex_of(&digest),
        "ba7816bf8f01cfea414140de5dae2223b00361a396177a9cb410ff61f20015ad"
    );
}

#[test]
fn digest_empty_known_vector() {
    let digest = calculate_digest(b"");
    assert_eq!(
        hex_of(&digest),
        "e3b0c44298fc1c149afbf4c8996fb92427ae41e4649b934ca495991b7852b855"
    );
}

#[test]
fn digest_is_deterministic() {
    let a = calculate_digest(b"same content");
    let b = calculate_digest(b"same content");
    assert_eq!(a, b);
    assert_eq!(a.len(), 32);
}

#[test]
fn chunk_id_is_hex_digest_of_stored_buffer() {
    let content = vec![5u8; MAX_CHUNK_SIZE];
    let chunk = Chunk::from_buffer(&content);
    assert_eq!(chunk.id(), &hex_of(&calculate_digest(&content)));
    assert_eq!(chunk.id().len(), 64);
}

#[test]
fn short_chunk_id_digests_zero_padded_buffer() {
    let content = vec![9u8; 100];
    let chunk = Chunk::from_buffer(&content);
    assert_eq!(chunk.size(), 100);
    assert_eq!(chunk.buffer().len(), MAX_CHUNK_SIZE);

    let mut padded = content.clone();
    padded.resize(MAX_CHUNK_SIZE, 0);
    assert_eq!(chunk.buffer(), &padded);
    assert_eq!(chunk.id(), &hex_of(&calculate_digest(&padded)));
}

#[test]
fn distinct_content_distinct_ids() {
    let a = Chunk::from_buffer(&[1u8, 2, 3]);
    let b = Chunk::from_buffer(&[1u8, 2, 4]);
    assert_ne!(a.id(), b.id());
}

#[test]
fn bundle_ids_are_deterministic() {
    let data = vec![42u8; 3000];
    let b1 = Bundle::from_bytes(String::from("one"), &data);
    let b2 = Bundle::from_bytes(String::from("two"), &data);
    assert_eq!(b1.id(), b2.id());
    assert_eq!(b1.chunks().len(), b2.chunks().len());
    for (c1, c2) in b1.chunks().iter().zip(b2.chunks().iter()) {
        assert_eq!(c1.id(), c2.id());
    }
}

#[test]
fn bundle_id_digests_whole_content() {
    let data = b"bundle content".to_vec();
    let bundle = Bundle::from_bytes(String::from("p"), &data);
    assert_eq!(bundle.id(), &hex_of(&calculate_digest(&data)));
}
