use kotoclip_core::analysis_cache::AnalysisCache;
use std::sync::Arc;

#[test]
fn least_recently_used_entry_is_evicted_first() {
    let mut cache: AnalysisCache<u8> = AnalysisCache::new(2);
    cache.insert("a".to_string(), Arc::new(1), 1);
    cache.insert("b".to_string(), Arc::new(2), 1);
    assert_eq!(cache.get("a").map(|v| *v), Some(1));
    cache.insert("c".to_string(), Arc::new(3), 1);
    assert!(cache.get("b").is_none());
    assert_eq!(cache.get("a").map(|v| *v), Some(1));
    assert_eq!(cache.get("c").map(|v| *v), Some(3));
}

#[test]
fn reinsert_replaces_value_and_size() {
    let mut cache: AnalysisCache<u8> = AnalysisCache::new(3);
    cache.insert("a".to_string(), Arc::new(1), 2);
    cache.insert("b".to_string(), Arc::new(2), 1);
    cache.insert("a".to_string(), Arc::new(7), 1);
    cache.insert("c".to_string(), Arc::new(3), 1);
    assert_eq!(cache.get("a").map(|v| *v), Some(7));
    assert_eq!(cache.get("b").map(|v| *v), Some(2));
    assert_eq!(cache.get("c").map(|v| *v), Some(3));
}

#[test]
fn oversized_sole_entry_is_kept() {
    let mut cache: AnalysisCache<u8> = AnalysisCache::new(1);
    cache.insert("a".to_string(), Arc::new(1), 1);
    cache.insert("big".to_string(), Arc::new(9), 5);
    assert!(cache.get("a").is_none());
    assert_eq!(cache.get("big").map(|v| *v), Some(9));
}

#[test]
fn entry_count_is_bounded() {
    let mut cache: AnalysisCache<u32> = AnalysisCache::new(usize::MAX / 2);
    for i in 0..300u32 {
        cache.insert(format!("k{}", i), Arc::new(i), 0);
    }
    assert!(cache.get("k43").is_none());
    assert_eq!(cache.get("k44").map(|v| *v), Some(44));
    assert_eq!(cache.get("k299").map(|v| *v), Some(299));
}

#[test]
fn clear_drops_everything() {
    let mut cache: AnalysisCache<u8> = AnalysisCache::new(10);
    cache.insert("a".to_string(), Arc::new(1), 1);
    cache.clear();
    assert!(cache.get("a").is_none());
}
