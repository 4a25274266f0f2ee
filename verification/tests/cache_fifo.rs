use proof_diff::cache::CachedImage;
use proof_diff::cache::ImageCache;

fn image(tag: u8) -> CachedImage {
    CachedImage { data: vec![tag; 3], width: tag as u32, height: 2 * tag as u32 }
}

#[test]
fn a_new_cache_is_empty() {
    let cache = ImageCache::new(100);
    assert_eq!(cache.len(), 0);
    assert!(cache.get("a").is_none());
}

#[test]
fn an_inserted_image_is_found() {
    let mut cache = ImageCache::new(2);
    cache.insert("a".to_string(), image(1));
    let found = cache.get("a").unwrap();
    assert_eq!(found.data, vec![1, 1, 1]);
    assert_eq!((found.width, found.height), (1, 2));
    assert!(cache.get("b").is_none());
}

#[test]
fn one_key_more_than_capacity_evicts_the_first() {
    let mut cache = ImageCache::new(3);
    for (i, key) in ["a", "b", "c", "d"].iter().enumerate() {
        cache.insert(key.to_string(), image(i as u8));
    }
    assert_eq!(cache.len(), 3);
    assert!(cache.get("a").is_none());
    assert!(cache.get("b").is_some());
    assert!(cache.get("c").is_some());
    assert!(cache.get("d").is_some());
}

#[test]
fn a_lookup_does_not_save_from_eviction() {
    let mut cache = ImageCache::new(2);
    cache.insert("a".to_string(), image(1));
    cache.insert("b".to_string(), image(2));
    assert!(cache.get("a").is_some());
    assert!(cache.get("a").is_some());
    cache.insert("c".to_string(), image(3));
    assert!(cache.get("a").is_none());
    assert!(cache.get("b").is_some());
    assert!(cache.get("c").is_some());
    cache.insert("d".to_string(), image(4));
    assert!(cache.get("b").is_none());
    assert_eq!(cache.len(), 2);
}

#[test]
fn eviction_goes_on_in_the_order_of_insertion() {
    let mut cache = ImageCache::new(2);
    for (i, key) in ["a", "b", "c", "d", "e"].iter().enumerate() {
        cache.insert(key.to_string(), image(i as u8));
        assert!(cache.len() <= 2);
    }
    assert!(cache.get("c").is_none());
    assert_eq!(cache.get("d").unwrap().width, 3);
    assert_eq!(cache.get("e").unwrap().width, 4);
}

#[test]
fn clearing_empties_the_cache_and_its_queue() {
    let mut cache = ImageCache::new(2);
    cache.insert("a".to_string(), image(1));
    cache.insert("b".to_string(), image(2));
    cache.clear();
    assert_eq!(cache.len(), 0);
    assert!(cache.get("a").is_none());
    cache.insert("c".to_string(), image(3));
    cache.insert("d".to_string(), image(4));
    assert_eq!(cache.len(), 2);
    assert!(cache.get("c").is_some());
    assert!(cache.get("d").is_some());
}

#[test]
fn a_key_inserted_again_replaces_its_image() {
    let mut cache = ImageCache::new(3);
    cache.insert("a".to_string(), image(1));
    cache.insert("a".to_string(), image(9));
    assert_eq!(cache.len(), 1);
    assert_eq!(cache.get("a").unwrap().width, 9);
}

#[test]
fn a_key_inserted_again_goes_to_the_back_of_the_queue() {
    let mut cache = ImageCache::new(3);
    cache.insert("a".to_string(), image(1));
    cache.insert("b".to_string(), image(2));
    cache.insert("a".to_string(), image(3));
    assert_eq!(cache.len(), 2);
    assert_eq!(cache.get("a").unwrap().width, 3);
    assert_eq!(cache.get("b").unwrap().width, 2);
    cache.insert("c".to_string(), image(4));
    assert_eq!(cache.len(), 3);
    // The queue is b, a, c: the next insertion evicts b, the one after it a.
    cache.insert("d".to_string(), image(5));
    assert!(cache.get("b").is_none());
    assert!(cache.get("a").is_some());
    cache.insert("e".to_string(), image(6));
    assert!(cache.get("a").is_none());
    assert!(cache.get("c").is_some());
    assert_eq!(cache.len(), 3);
}

#[test]
fn at_capacity_the_head_leaves_also_for_a_key_that_is_held() {
    let mut cache = ImageCache::new(2);
    cache.insert("a".to_string(), image(1));
    cache.insert("b".to_string(), image(2));
    cache.insert("b".to_string(), image(3));
    assert!(cache.get("a").is_none());
    assert_eq!(cache.get("b").unwrap().width, 3);
    assert_eq!(cache.len(), 1);
    // The head itself is inserted again: it leaves and comes back last.
    cache.insert("c".to_string(), image(4));
    cache.insert("b".to_string(), image(5));
    assert_eq!(cache.len(), 2);
    assert_eq!(cache.get("b").unwrap().width, 5);
    assert!(cache.get("c").is_some());
    cache.insert("d".to_string(), image(6));
    assert!(cache.get("c").is_none());
    assert!(cache.get("b").is_some());
    assert!(cache.get("d").is_some());
}

#[test]
fn the_cache_never_holds_more_than_its_capacity() {
    let mut cache = ImageCache::new(2);
    for (i, key) in ["a", "a", "b", "c", "d"].iter().enumerate() {
        cache.insert(key.to_string(), image(i as u8));
        assert!(cache.len() <= 2);
    }
    assert_eq!(cache.len(), 2);
    assert!(cache.get("a").is_none());
    assert!(cache.get("b").is_none());
    assert_eq!(cache.get("c").unwrap().width, 3);
    assert_eq!(cache.get("d").unwrap().width, 4);
    let keys = ["x", "y", "x", "z", "y", "x", "w", "w", "z"];
    let mut cache = ImageCache::new(3);
    for (i, key) in keys.iter().enumerate() {
        cache.insert(key.to_string(), image(i as u8));
        assert!(cache.len() <= 3);
        assert_eq!(cache.get(key).unwrap().width, i as u32);
    }
}

#[test]
fn a_cache_without_capacity_holds_nothing() {
    let mut cache = ImageCache::new(0);
    cache.insert("a".to_string(), image(1));
    assert_eq!(cache.len(), 0);
    assert!(cache.get("a").is_none());
    cache.insert("b".to_string(), image(2));
    assert_eq!(cache.len(), 0);
    cache.clear();
    assert_eq!(cache.len(), 0);
}
