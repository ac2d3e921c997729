use surveillance::cache::{
    cache_entries, check_matrix_bytes, load_face_cache, sample_from_cache_entry,
    sample_to_cache_entry, save_face_cache, CacheEntry, CacheError, CacheIndex, FaceCache,
    KnownFaceSample, CACHE_VERSION,
};

fn sample(path: &str, data: &[u8]) -> KnownFaceSample {
    KnownFaceSample {
        name: "ann".to_string(),
        path: path.to_string(),
        signature: "12:34".to_string(),
        rows: 1,
        cols: data.len() as i32,
        mat_type: 0,
        data: data.to_vec(),
    }
}

fn entry(path: &str, signature: &str) -> CacheEntry {
    CacheEntry {
        path: path.to_string(),
        signature: signature.to_string(),
        no_face: false,
        rows: 1,
        cols: 3,
        mat_type: 0,
        data: "AQID".to_string(),
    }
}

#[test]
fn samples_are_encoded_in_base64() {
    let e = sample_to_cache_entry(&sample("ann/1.jpg", b"hello"));
    assert_eq!(e.data, "aGVsbG8=");
    assert_eq!(e.path, "ann/1.jpg");
    assert_eq!(e.signature, "12:34");
    assert_eq!((e.rows, e.cols, e.mat_type, e.no_face), (1, 5, 0, false));
}

#[test]
fn cached_samples_are_read_back() {
    for n in 1..40u8 {
        let data: Vec<u8> = (0..n).map(|i| i.wrapping_mul(37)).collect();
        let e = sample_to_cache_entry(&sample("x", &data));
        assert_eq!(e.data.len(), 4 * ((n as usize + 2) / 3));
        assert_eq!(sample_from_cache_entry(&e, Some(data.len())), Ok(data));
    }
}

#[test]
fn invalid_entries_are_refused() {
    let good = entry("a", "s");
    assert_eq!(sample_from_cache_entry(&good, Some(3)), Ok(vec![1, 2, 3]));
    let mut e = entry("a", "s");
    e.rows = 0;
    assert_eq!(sample_from_cache_entry(&e, Some(3)), Err(CacheError::InvalidEntry));
    let mut e = entry("a", "s");
    e.cols = -1;
    assert_eq!(sample_from_cache_entry(&e, Some(3)), Err(CacheError::InvalidEntry));
    let mut e = entry("a", "s");
    e.data = String::new();
    assert_eq!(sample_from_cache_entry(&e, Some(3)), Err(CacheError::InvalidEntry));
    let mut e = entry("a", "s");
    e.data = "AQI!".to_string();
    assert_eq!(sample_from_cache_entry(&e, Some(3)), Err(CacheError::InvalidData));
    assert_eq!(sample_from_cache_entry(&good, None), Err(CacheError::NoMatrix));
    assert_eq!(
        sample_from_cache_entry(&good, Some(4)),
        Err(CacheError::ByteCount { found: 3, expected: 4 }),
    );
}

#[test]
fn bytes_must_fill_the_matrix() {
    assert_eq!(check_matrix_bytes(Some(vec![1, 2]), Some(2)), Ok(vec![1, 2]));
    assert_eq!(check_matrix_bytes(None, Some(2)), Err(CacheError::InvalidData));
    assert_eq!(check_matrix_bytes(Some(vec![1]), None), Err(CacheError::NoMatrix));
    assert_eq!(
        check_matrix_bytes(Some(vec![1]), Some(2)),
        Err(CacheError::ByteCount { found: 1, expected: 2 }),
    );
}

#[test]
fn the_last_entry_of_a_path_is_used() {
    let cache = FaceCache {
        version: CACHE_VERSION,
        entries: vec![entry("a", "1"), entry("b", "2"), entry("a", "3")],
    };
    let index = load_face_cache(cache);
    assert_eq!(index.get("a").unwrap().signature, "3");
    assert_eq!(index.get("b").unwrap().signature, "2");
    assert!(index.get("c").is_none());
    assert_eq!(index.entries.len(), 2);
}

#[test]
fn a_cache_of_another_version_is_not_used() {
    let cache = FaceCache { version: 2, entries: vec![entry("a", "1")] };
    assert!(load_face_cache(cache).get("a").is_none());
    assert!(CacheIndex::new().get("a").is_none());
}

#[test]
fn entries_are_written_in_the_order_of_their_paths() {
    let entries = vec![entry("b/1", "1"), entry("a/2", "2"), entry("B", "3"), entry("a/2", "4")];
    let cache = save_face_cache(&entries);
    assert_eq!(cache.version, 1);
    let order: Vec<&str> = cache.entries.iter().map(|e| e.signature.as_str()).collect();
    assert_eq!(order, ["3", "2", "4", "1"]);
    let index = load_face_cache(cache);
    assert_eq!(index.get("a/2").unwrap().signature, "4");
    assert_eq!(index.get("b/1").unwrap().signature, "1");
}

#[test]
fn every_sample_gets_an_entry() {
    let samples = vec![sample("b", &[1]), sample("a", &[2, 3])];
    let entries = cache_entries(&samples);
    assert_eq!(entries.len(), 2);
    assert_eq!(entries[0].data, "AQ==");
    assert_eq!(entries[1].data, "AgM=");
    let mut index = CacheIndex::new();
    for e in entries {
        index.insert(e);
    }
    assert_eq!(index.get("a").unwrap().cols, 2);
}

#[test]
fn a_spoilt_entry_gives_no_sample() {
    let data = [7u8, 8, 9, 10];
    let whole = sample_to_cache_entry(&sample("ann/1.jpg", &data));
    assert_eq!((whole.rows, whole.cols, whole.mat_type), (1, 4, 0));
    assert_eq!(sample_from_cache_entry(&whole, Some(4)), Ok(data.to_vec()));
    let mut spoilt = vec![whole.clone(), whole.clone(), whole.clone(), whole.clone(), whole.clone()];
    spoilt[0].rows = -1;
    spoilt[1].cols = 0;
    spoilt[2].data = String::new();
    spoilt[3].data.pop();
    spoilt[4].data = "BwgJ".to_string();
    for e in &spoilt {
        assert!(sample_from_cache_entry(e, Some(4)).is_err(), "{e:?}");
    }
}
