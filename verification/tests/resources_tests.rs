use milim_2d::AssetCache;

#[test]
fn empty_cache_has_nothing() {
    let cache: AssetCache<String> = AssetCache::new();
    assert_eq!(cache.get_id("player.png"), None);
    assert!(cache.get(0).is_none());
    assert!(cache.get(1).is_none());
    assert_eq!(cache.last_issued_id(), 0);
}

#[test]
fn insert_hands_out_ids_from_one() {
    let mut cache = AssetCache::new();
    let a = cache.insert("a.png", 10u32);
    let b = cache.insert("b.png", 20u32);
    assert_eq!(a, 1);
    assert_eq!(b, 2);
    assert_eq!(cache.last_issued_id(), 2);
}

#[test]
fn insert_then_lookup_by_id_and_path() {
    let mut cache = AssetCache::new();
    let id = cache.insert("tilemap.png", String::from("texture"));
    assert_eq!(cache.get(id), Some(&String::from("texture")));
    assert_eq!(cache.get_id("tilemap.png"), Some(id));
    assert_eq!(cache.get_id("other.png"), None);
}

#[test]
fn reinserting_a_path_keeps_the_old_asset() {
    let mut cache = AssetCache::new();
    let first = cache.insert("hero.png", 1u8);
    let second = cache.insert("hero.png", 2u8);
    assert_eq!(first, 1);
    assert_eq!(second, 2);
    assert_eq!(cache.get_id("hero.png"), Some(2));
    assert_eq!(cache.get(first), Some(&1));
    assert_eq!(cache.get(second), Some(&2));
}

#[test]
fn get_mut_writes_through() {
    let mut cache = AssetCache::new();
    let id = cache.insert("map.png", vec![1, 2, 3]);
    if let Some(v) = cache.get_mut(id) {
        v.push(4);
    }
    assert_eq!(cache.get(id), Some(&vec![1, 2, 3, 4]));
    assert!(cache.get_mut(id + 1).is_none());
    assert_eq!(cache.get_id("map.png"), Some(id));
}

#[test]
fn ids_cover_exactly_one_to_the_insert_count() {
    let mut cache = AssetCache::new();
    cache.insert("a.png", 'a');
    cache.insert("b.png", 'b');
    cache.insert("a.png", 'c');
    assert_eq!(cache.last_issued_id(), 3);
    assert!(cache.get(0).is_none());
    for i in 1..=3 {
        assert!(cache.get(i).is_some());
    }
    assert!(cache.get(4).is_none());
    assert_eq!(cache.get_id("a.png"), Some(3));
    assert_eq!(cache.get_id("b.png"), Some(2));
    assert_eq!(cache.get_id("c.png"), None);
}
