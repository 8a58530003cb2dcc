use chunkstore::{Bundle, Cache, MAX_CHUNK_SIZE};

fn sample_bytes(len: usize) -> Vec<u8> {
    let mut data = Vec::with_capacity(len);
    for i in 0..len {
        data.push((i % 251) as u8);
    }
    data
}

fn round_trip(len: usize) {
    let data = sample_bytes(len);
    let bundle = Bundle::from_bytes(String::from("source"), data.as_slice());
    assert_eq!(bundle.size(), len);
    let rebuilt = bundle.to_bytes();
    assert_eq!(rebuilt.len(), len);
    assert_eq!(rebuilt, data);
}

#[test]
fn round_trip_empty() {
    round_trip(0);
}

#[test]
fn round_trip_short() {
    round_trip(1);
}

#[test]
fn round_trip_exact_multiple() {
    round_trip(2 * MAX_CHUNK_SIZE);
}

#[test]
fn round_trip_one_over_multiple() {
    round_trip(MAX_CHUNK_SIZE + 1);
}

#[test]
fn round_trip_one_under_multiple() {
    round_trip(MAX_CHUNK_SIZE - 1);
}

#[test]
fn round_trip_unaligned() {
    round_trip(2500);
}

#[test]
fn round_trip_through_cache() {
    let data = sample_bytes(2500);
    let bundle = Bundle::from_bytes(String::from("source"), data.as_slice());
    let mut cache = Cache::new(String::from("cachedir"));
    assert!(bundle.write_to_cache(&mut cache).is_ok());

    let mut ids: Vec<String> = Vec::new();
    for chunk in bundle.chunks() {
        ids.push(chunk.id().clone());
    }
    let rehydrated = Bundle::from_ids(&ids, bundle.id().clone(), bundle.size(), &cache)
        .expect("all chunks were just written");
    assert_eq!(rehydrated.id(), bundle.id());
    assert_eq!(rehydrated.size(), 2500);
    assert_eq!(rehydrated.path(), "cachedir");
    assert_eq!(rehydrated.chunks().len(), 3);
    assert_eq!(rehydrated.to_bytes(), data);
}

#[test]
fn round_trip_through_cache_aligned() {
    let data = sample_bytes(MAX_CHUNK_SIZE);
    let bundle = Bundle::from_bytes(String::from("source"), data.as_slice());
    let mut cache = Cache::new(String::from("cachedir"));
    assert!(bundle.write_to_cache(&mut cache).is_ok());
    let ids = vec![bundle.chunks()[0].id().clone()];
    let rehydrated =
        Bundle::from_ids(&ids, bundle.id().clone(), MAX_CHUNK_SIZE, &cache).unwrap();
    assert_eq!(rehydrated.to_bytes(), data);
}
