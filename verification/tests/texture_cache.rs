use renderer::texture_cache::{GpuResourceStats, GpuTextureCache};

#[test]
fn missing_textures_fall_back_once() {
    let mut cache: GpuTextureCache<&str> = GpuTextureCache::new();
    let k = cache.get_or_fallback(7, || ("white", 4));
    assert_eq!(k, 0);
    assert_eq!(cache.get(7), Some(&"white"));
    assert_eq!(cache.get_stats(), GpuResourceStats { count: 1, bytes: 4 });
    let k = cache.get_or_fallback(7, || ("other", 100));
    assert_eq!(k, 0);
    assert_eq!(cache.get(7), Some(&"white"));
    assert_eq!(cache.get_stats(), GpuResourceStats { count: 1, bytes: 4 });
}

#[test]
fn an_upload_keeps_a_texture_already_held() {
    let mut cache: GpuTextureCache<&str> = GpuTextureCache::new();
    cache.create_from_cpu(1, || ("first", 10));
    cache.create_from_cpu(2, || ("second", 20));
    cache.create_from_cpu(1, || ("again", 30));
    assert_eq!(cache.get(1), Some(&"first"));
    assert!(cache.contains_key(2));
    assert!(!cache.contains_key(3));
    assert_eq!(cache.get(3), None);
    assert_eq!(cache.get_stats(), GpuResourceStats { count: 2, bytes: 30 });
}

#[test]
fn retain_drops_unloaded_textures_and_their_bytes() {
    let mut cache: GpuTextureCache<u8> = GpuTextureCache::new();
    for id in 1..=4u64 {
        cache.create_from_cpu(id, || (id as u8, id as usize * 100));
    }
    cache.retain(&[4, 2, 9]);
    let ids: Vec<u64> = cache.entries.iter().map(|e| e.id).collect();
    assert_eq!(ids, vec![2, 4]);
    assert_eq!(cache.get_stats(), GpuResourceStats { count: 2, bytes: 600 });
    cache.retain(&[]);
    assert_eq!(cache.get_stats(), GpuResourceStats { count: 0, bytes: 0 });
}

#[test]
fn uploads_only_loaded_assets_not_held_yet() {
    let mut cache: GpuTextureCache<String> = GpuTextureCache::new();
    cache.create_from_cpu(1, || ("held".to_string(), 5));
    let dirty = vec![(1u64, "a"), (2, "b"), (3, "c"), (2, "d")];
    cache.upload_textures(dirty, &[1, 2], |t: &str| (t.to_string(), t.len() * 10));
    let ids: Vec<u64> = cache.entries.iter().map(|e| e.id).collect();
    assert_eq!(ids, vec![1, 2]);
    assert_eq!(cache.get(1), Some(&"held".to_string()));
    assert_eq!(cache.get(2), Some(&"b".to_string()));
    assert_eq!(cache.get_stats(), GpuResourceStats { count: 2, bytes: 15 });
}
