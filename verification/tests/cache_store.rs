use chunkstore::{Bundle, Cache, Chunk, IoError, MAX_CHUNK_SIZE};

#[test]
fn dedup_shared_aligned_block() {
    // Two distinct files sharing the same first MAX_CHUNK_SIZE-aligned
    // block: that block yields one chunk id, and one cache entry.
    let shared = vec![7u8; MAX_CHUNK_SIZE];
    let mut data1 = shared.clone();
    data1.extend_from_slice(&[1u8; 100]);
    let mut data2 = shared.clone();
    data2.extend_from_slice(&[2u8; 100]);

    let b1 = Bundle::from_bytes(String::from("one"), &data1);
    let b2 = Bundle::from_bytes(String::from("two"), &data2);
    assert_eq!(b1.chunks()[0].id(), b2.chunks()[0].id());
    assert_ne!(b1.chunks()[1].id(), b2.chunks()[1].id());
    assert_ne!(b1.id(), b2.id());

    let mut cache = Cache::new(String::from("cachedir"));
    assert!(b1.write_to_cache(&mut cache).is_ok());
    assert!(b2.write_to_cache(&mut cache).is_ok());
    // Four chunks written, but the shared block is filed once.
    assert_eq!(cache.len(), 3);
}

#[test]
fn rewriting_identical_content_is_a_no_op() {
    let data = vec![3u8; 2048];
    let bundle = Bundle::from_bytes(String::from("p"), &data);
    let mut cache = Cache::new(String::from("cachedir"));
    assert!(bundle.write_to_cache(&mut cache).is_ok());
    // from_bytes chunks both full of 3s share one id: one entry.
    assert_eq!(cache.len(), 1);
    assert!(bundle.write_to_cache(&mut cache).is_ok());
    assert_eq!(cache.len(), 1);
}

#[test]
fn cache_miss_fails_with_io_error() {
    let cache = Cache::new(String::from("cachedir"));
    let ids = vec![String::from("0123"), String::from("4567")];
    let r = Bundle::from_ids(&ids, String::from("fileid"), 2048, &cache);
    assert!(matches!(r, Err(IoError)));
}

#[test]
fn one_dangling_reference_fails_whole_rehydration() {
    let data = vec![11u8; MAX_CHUNK_SIZE];
    let bundle = Bundle::from_bytes(String::from("p"), &data);
    let mut cache = Cache::new(String::from("cachedir"));
    assert!(bundle.write_to_cache(&mut cache).is_ok());

    let present = bundle.chunks()[0].id().clone();
    let absent = String::from("not-a-chunk-id");
    let ids = vec![present, absent];
    let r = Bundle::from_ids(&ids, bundle.id().clone(), 2 * MAX_CHUNK_SIZE, &cache);
    assert!(r.is_err());
}

#[test]
fn truncated_cache_entry_fails_load() {
    let mut cache = Cache::new(String::from("cachedir"));
    let id = String::from("deadbeef");
    cache.insert(id.clone(), vec![0u8; MAX_CHUNK_SIZE - 1]);
    let r = Chunk::from_cache(&id, &cache);
    assert!(matches!(r, Err(IoError)));
}

#[test]
fn oversized_cache_entry_loads_first_capacity_bytes() {
    let mut cache = Cache::new(String::from("cachedir"));
    let id = String::from("deadbeef");
    let mut long = vec![8u8; MAX_CHUNK_SIZE];
    long.extend_from_slice(&[9u8; 50]);
    cache.insert(id.clone(), long);
    let chunk = Chunk::from_cache(&id, &cache).unwrap();
    assert_eq!(chunk.id(), &id);
    assert_eq!(chunk.size(), MAX_CHUNK_SIZE);
    assert_eq!(chunk.buffer(), &vec![8u8; MAX_CHUNK_SIZE]);
}

#[test]
fn insert_replaces_entry_under_same_id() {
    let mut cache = Cache::new(String::from("cachedir"));
    let id = String::from("k");
    cache.insert(id.clone(), vec![1u8; 10]);
    cache.insert(id.clone(), vec![2u8; 10]);
    assert_eq!(cache.len(), 1);
    assert_eq!(cache.get(&id), Some(&vec![2u8; 10]));
    assert_eq!(cache.get(&String::from("other")), None);
    assert_eq!(cache.path(), "cachedir");
}

#[test]
fn written_chunk_loads_back_identically() {
    let chunk = Chunk::from_buffer(&[42u8; 700]);
    let mut cache = Cache::new(String::from("cachedir"));
    assert!(chunk.write_to_cache(&mut cache).is_ok());
    let loaded = Chunk::from_cache(chunk.id(), &cache).unwrap();
    assert_eq!(loaded.id(), chunk.id());
    assert_eq!(loaded.buffer(), chunk.buffer());
    // The trim length is owned by the bundle: a loaded chunk reports the
    // full capacity.
    assert_eq!(loaded.size(), MAX_CHUNK_SIZE);
}
