use std::collections::HashMap;
use std::sync::{Arc, Weak};
use tantivy::mmap_cache::MmapCache;

fn open(cache: &mut MmapCache<Weak<Vec<u8>>>, path: &str) -> Arc<Vec<u8>> {
    let key = path.to_string();
    match cache.get_mmap(&key, |w: &Weak<Vec<u8>>| w.upgrade()) {
        Some(data) => data,
        None => {
            let data = Arc::new(path.as_bytes().to_vec());
            cache.insert(key, Arc::downgrade(&data));
            data
        }
    }
}

/// Opens `path` from `disk` through the cache, as a directory does: a file
/// that is not on disk cannot be opened.
fn open_from(
    cache: &mut MmapCache<Weak<Vec<u8>>>,
    disk: &HashMap<String, Vec<u8>>,
    path: &str,
) -> Result<Arc<Vec<u8>>, String> {
    let key = path.to_string();
    if let Some(data) = cache.get_mmap(&key, |w: &Weak<Vec<u8>>| w.upgrade()) {
        return Ok(data);
    }
    match disk.get(path) {
        Some(bytes) => {
            let data = Arc::new(bytes.clone());
            cache.insert(key, Arc::downgrade(&data));
            Ok(data)
        }
        None => Err(format!("{} does not exist", path)),
    }
}

#[test]
fn test_cache() {
    let content = "abc".as_bytes();
    let mut disk: HashMap<String, Vec<u8>> = HashMap::new();
    let mut cache: MmapCache<Weak<Vec<u8>>> = MmapCache::new();
    let num_paths = 10;
    let paths: Vec<String> = (0..num_paths).map(|i| format!("file_{}", i)).collect();
    for path in &paths {
        disk.insert(path.clone(), content.to_vec());
    }

    let mut keep = vec![];
    for (i, path) in paths.iter().enumerate() {
        keep.push(open_from(&mut cache, &disk, path).unwrap());
        assert_eq!(cache.get_info().mmapped.len(), i + 1);
    }
    assert_eq!(cache.get_info().counters.hit, 0);
    assert_eq!(cache.get_info().counters.miss, 10);
    assert_eq!(cache.get_info().mmapped.len(), 10);
    for path in paths.iter() {
        let _r = open_from(&mut cache, &disk, path).unwrap();
        assert_eq!(cache.get_info().mmapped.len(), num_paths);
    }
    assert_eq!(cache.get_info().counters.hit, 10);
    assert_eq!(cache.get_info().counters.miss, 10);
    assert_eq!(cache.get_info().mmapped.len(), 10);

    for path in paths.iter() {
        let _r = open_from(&mut cache, &disk, path).unwrap();
        assert_eq!(cache.get_info().mmapped.len(), num_paths);
    }
    assert_eq!(cache.get_info().counters.hit, 20);
    assert_eq!(cache.get_info().counters.miss, 10);
    assert_eq!(cache.get_info().mmapped.len(), 10);
    drop(keep);
    for path in paths.iter() {
        let _r = open_from(&mut cache, &disk, path).unwrap();
        assert_eq!(cache.get_info().mmapped.len(), num_paths);
    }
    assert_eq!(cache.get_info().counters.hit, 20);
    assert_eq!(cache.get_info().counters.miss, 20);
    assert_eq!(cache.get_info().mmapped.len(), 10);

    for path in &paths {
        disk.remove(path).unwrap();
    }
    assert_eq!(cache.get_info().counters.hit, 20);
    assert_eq!(cache.get_info().counters.miss, 20);
    assert_eq!(cache.get_info().mmapped.len(), 10);
    for path in paths.iter() {
        assert!(open_from(&mut cache, &disk, path).is_err());
    }
    assert_eq!(cache.get_info().counters.hit, 20);
    assert_eq!(cache.get_info().counters.miss, 30);
    assert_eq!(cache.get_info().mmapped.len(), 0);
}

#[test]
fn same_path_twice_is_one_miss_then_one_hit() {
    let mut cache: MmapCache<Weak<Vec<u8>>> = MmapCache::new();
    let a = open(&mut cache, "x");
    let b = open(&mut cache, "x");
    assert!(Arc::ptr_eq(&a, &b));
    let info = cache.get_info();
    assert_eq!(info.counters.miss, 1);
    assert_eq!(info.counters.hit, 1);
    drop(a);
    drop(b);
    let _c = open(&mut cache, "x");
    assert_eq!(cache.get_info().counters.miss, 2);
    assert_eq!(cache.get_info().mmapped, vec!["x".to_string()]);
}

#[test]
fn dead_handle_is_evicted_on_lookup() {
    let mut cache: MmapCache<Weak<Vec<u8>>> = MmapCache::new();
    {
        let _a = open(&mut cache, "gone");
    }
    assert_eq!(cache.get_info().mmapped.len(), 1);
    let key = "gone".to_string();
    let r = cache.get_mmap(&key, |w: &Weak<Vec<u8>>| w.upgrade());
    assert!(r.is_none());
    assert_eq!(cache.get_info().mmapped.len(), 0);
    assert_eq!(cache.get_info().counters.miss, 2);
}
