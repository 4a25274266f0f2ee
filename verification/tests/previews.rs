use base64::Engine;
use proof_diff::cache::CachedImage;
use proof_diff::cache::ImageCache;
use proof_diff::errors::EngineError;
use proof_diff::picture::PixelBuffer;
use proof_diff::preview::cache_key;
use proof_diff::preview::render_preview;
use proof_diff::preview::cached_image_result;
use proof_diff::preview::decode_and_resize_image;
use proof_diff::preview::enter_preview;
use proof_diff::preview::held_in_cache;
use proof_diff::preview::pick_unheld;
use proof_diff::preview::prepare_preview;
use proof_diff::preview::store_preloaded;
use proof_diff::preview::load_all;
use proof_diff::preview::load_one;
use proof_diff::preview::paths_to_load;
use proof_diff::preview::preload_images;
use proof_diff::preview::store_loaded;

const PREFIX: &str = "data:image/png;base64,";

fn solid(width: u32, height: u32, grey: u8) -> PixelBuffer {
    PixelBuffer { width, height, data: vec![grey; (4 * width * height) as usize] }
}

fn png_file(img: &PixelBuffer) -> Vec<u8> {
    let mut file = std::io::Cursor::new(Vec::new());
    let view: image::ImageBuffer<image::Rgba<u8>, &[u8]> =
        image::ImageBuffer::from_raw(img.width, img.height, &img.data[..]).unwrap();
    view.write_to(&mut file, image::ImageFormat::Png).unwrap();
    file.into_inner()
}

fn size_of(url: &str) -> (u32, u32) {
    let png = base64::engine::general_purpose::STANDARD.decode(&url[PREFIX.len()..]).unwrap();
    let img = image::load_from_memory_with_format(&png, image::ImageFormat::Png).unwrap();
    (img.width(), img.height())
}

#[test]
fn the_key_is_path_and_bounds() {
    assert_eq!(cache_key("a.png", 800, 600), "a.png:800x600");
    assert_eq!(cache_key("", 0, 0), ":0x0");
    assert_eq!(cache_key("C:\\p q\\r.tif", 10, 4294967295), "C:\\p q\\r.tif:10x4294967295");
    assert_eq!(cache_key("x", 1234567890, 9), "x:1234567890x9");
    assert_eq!(cache_key("x", 100, 1000), "x:100x1000");
}

#[test]
fn a_miss_decodes_scales_and_caches() {
    let mut cache = ImageCache::new(100);
    let file = png_file(&solid(8, 4, 50));
    let result = decode_and_resize_image(&mut cache, "page.png", &file, 4, 4).unwrap();
    assert_eq!((result.width, result.height), (4, 2));
    assert_eq!((result.original_width, result.original_height), (8, 4));
    assert_eq!(size_of(&result.data_url), (4, 2));
    let cached = cache.get("page.png:4x4").unwrap();
    assert_eq!((cached.width, cached.height), (4, 2));
    assert_eq!(
        result.data_url,
        format!("{}{}", PREFIX, base64::engine::general_purpose::STANDARD.encode(&cached.data))
    );
    assert_eq!(cache.len(), 1);
}

#[test]
fn a_hit_is_served_from_the_cache_with_the_cached_size() {
    let mut cache = ImageCache::new(100);
    let file = png_file(&solid(8, 4, 50));
    let first = decode_and_resize_image(&mut cache, "page.png", &file, 4, 4).unwrap();
    let again = decode_and_resize_image(&mut cache, "page.png", &[], 4, 4).unwrap();
    assert_eq!(again.data_url, first.data_url);
    let third = decode_and_resize_image(&mut cache, "page.png", &file, 4, 4).unwrap();
    assert_eq!(third.data_url, first.data_url);
    assert_eq!((third.original_width, third.original_height), (4, 2));
    assert_eq!((again.width, again.height), (4, 2));
    assert_eq!((again.original_width, again.original_height), (4, 2));
    assert_eq!(cache.len(), 1);
}

#[test]
fn other_bounds_are_another_entry() {
    let mut cache = ImageCache::new(100);
    let file = png_file(&solid(8, 4, 50));
    decode_and_resize_image(&mut cache, "page.png", &file, 4, 4).unwrap();
    let other = decode_and_resize_image(&mut cache, "page.png", &file, 100, 100).unwrap();
    assert_eq!((other.width, other.height), (8, 4));
    assert_eq!(cache.len(), 2);
    assert!(cache.get("page.png:100x100").is_some());
}

#[test]
fn a_failed_decode_leaves_the_cache_alone() {
    let mut cache = ImageCache::new(100);
    let out = decode_and_resize_image(&mut cache, "page.png", &[1, 2, 3], 4, 4);
    match out {
        Err(EngineError::Decode(text)) => assert!(text.starts_with("Failed to open image: ")),
        other => panic!("unexpected: {:?}", other),
    }
    assert_eq!(cache.len(), 0);
    assert!(cache.get("page.png:4x4").is_none());
}

#[test]
fn the_cache_is_asked_by_key() {
    let mut cache = ImageCache::new(2);
    assert!(cached_image_result(&cache, "k").unwrap().is_none());
    cache.insert("k".to_string(), CachedImage { data: b"foo".to_vec(), width: 3, height: 5 });
    let hit = cached_image_result(&cache, "k").unwrap().unwrap();
    assert_eq!(hit.data_url, format!("{}Zm9v", PREFIX));
    assert_eq!((hit.width, hit.height, hit.original_width, hit.original_height), (3, 5, 3, 5));
}

#[test]
fn a_decoded_image_enters_the_cache() {
    let mut cache = ImageCache::new(1);
    let preview = render_preview(&solid(10, 10, 3), 5, 100).unwrap();
    let result = enter_preview(&mut cache, "a".to_string(), preview);
    assert_eq!((result.width, result.height), (5, 5));
    assert_eq!((result.original_width, result.original_height), (10, 10));
    let preview = render_preview(&solid(2, 2, 3), 5, 100).unwrap();
    enter_preview(&mut cache, "b".to_string(), preview);
    assert!(cache.get("a").is_none());
    assert_eq!(cache.get("b").unwrap().width, 2);
    let broken = PixelBuffer { width: 2, height: 2, data: vec![0; 3] };
    assert!(render_preview(&broken, 5, 100).is_err());
}

#[test]
fn only_paths_not_cached_are_loaded() {
    let mut cache = ImageCache::new(10);
    cache.insert("b.png:4x4".to_string(), CachedImage { data: vec![], width: 1, height: 1 });
    cache.insert("c.png:9x9".to_string(), CachedImage { data: vec![], width: 1, height: 1 });
    let paths = vec!["a.png".to_string(), "b.png".to_string(), "c.png".to_string(), "a.png".to_string()];
    assert_eq!(paths_to_load(&cache, &paths, 4, 4), vec!["a.png", "c.png", "a.png"]);
    assert_eq!(paths_to_load(&cache, &paths, 9, 9), vec!["a.png", "b.png", "a.png"]);
    assert!(paths_to_load(&cache, &Vec::new(), 4, 4).is_empty());
}

#[test]
fn no_paths_no_statuses() {
    let mut cache = ImageCache::new(10);
    assert!(preload_images(&mut cache, &Vec::new(), &Vec::new(), 4, 4).is_empty());
    assert_eq!(cache.len(), 0);
}

#[test]
fn every_path_gets_its_status_in_order() {
    let mut cache = ImageCache::new(10);
    cache.insert("held.png:4x4".to_string(), CachedImage { data: vec![7], width: 1, height: 1 });
    let paths = vec![
        "a.png".to_string(),
        "held.png".to_string(),
        "gone.png".to_string(),
        "bad.png".to_string(),
        "held.png".to_string(),
        "b.png".to_string(),
    ];
    assert_eq!(
        paths_to_load(&cache, &paths, 4, 4),
        vec!["a.png", "gone.png", "bad.png", "b.png"]
    );
    let files = vec![
        Ok(png_file(&solid(8, 8, 1))),
        Err("No such file or directory (os error 2)".to_string()),
        Ok(vec![0, 1, 2]),
        Ok(png_file(&solid(2, 6, 2))),
    ];
    let statuses = preload_images(&mut cache, &paths, &files, 4, 4);
    assert_eq!(statuses.len(), 6);
    assert_eq!(statuses[0], "loaded:a.png");
    assert_eq!(statuses[1], "cached:held.png");
    assert_eq!(statuses[2], "error:gone.png:open error: No such file or directory (os error 2)");
    assert!(statuses[3].starts_with("error:bad.png:open error: "));
    assert_eq!(statuses[4], "cached:held.png");
    assert_eq!(statuses[5], "loaded:b.png");
    assert_eq!(cache.len(), 3);
    let a = cache.get("a.png:4x4").unwrap();
    assert_eq!((a.width, a.height), (4, 4));
    let b = cache.get("b.png:4x4").unwrap();
    assert_eq!((b.width, b.height), (1, 4));
    assert_eq!(cache.get("held.png:4x4").unwrap().data, vec![7]);
    assert!(cache.get("gone.png:4x4").is_none());
}

#[test]
fn paths_that_are_all_cached_are_all_reported_cached() {
    let mut cache = ImageCache::new(10);
    cache.insert("a:1x1".to_string(), CachedImage { data: vec![], width: 1, height: 1 });
    cache.insert("b:1x1".to_string(), CachedImage { data: vec![], width: 1, height: 1 });
    let paths = vec!["b".to_string(), "a".to_string()];
    let statuses = preload_images(&mut cache, &paths, &Vec::new(), 1, 1);
    assert_eq!(statuses, vec!["cached:b", "cached:a"]);
    assert_eq!(cache.len(), 2);
}

#[test]
fn a_path_given_twice_is_loaded_twice_and_stored_once() {
    let mut cache = ImageCache::new(2);
    let paths = vec!["a.png".to_string(), "a.png".to_string(), "b.png".to_string(), "c.png".to_string()];
    let file = png_file(&solid(2, 2, 1));
    let files = vec![Ok(file.clone()), Ok(file.clone()), Ok(file.clone()), Ok(file)];
    let statuses = preload_images(&mut cache, &paths, &files, 4, 4);
    assert_eq!(statuses, vec!["loaded:a.png", "loaded:a.png", "loaded:b.png", "loaded:c.png"]);
    assert_eq!(cache.len(), 2);
    assert!(cache.get("a.png:4x4").is_none());
    assert!(cache.get("b.png:4x4").is_some());
    assert!(cache.get("c.png:4x4").is_some());
}

#[test]
fn what_the_cache_holds_is_told_for_every_path() {
    let mut cache = ImageCache::new(10);
    cache.insert("b:4x4".to_string(), CachedImage { data: vec![], width: 1, height: 1 });
    let paths = vec!["a".to_string(), "b".to_string(), "b".to_string()];
    assert_eq!(held_in_cache(&cache, &paths, 4, 4), vec![false, true, true]);
    assert_eq!(held_in_cache(&cache, &paths, 4, 5), vec![false, false, false]);
}

#[test]
fn one_file_is_loaded_or_says_why_not() {
    let good = Ok(png_file(&solid(4, 2, 9)));
    let (png, w, h) = load_one("a.png", &good, 2, 2).unwrap();
    assert_eq!((w, h), (2, 1));
    assert!(!png.is_empty());
    assert_eq!(load_one("a.png", &Err("denied".to_string()), 2, 2), Err("open error: denied".to_string()));
    let text = load_one("a.gif", &good, 2, 2).unwrap_err();
    assert!(text.starts_with("open error: "));
}

#[test]
fn results_stand_at_the_place_of_their_path() {
    let paths: Vec<String> = (0..32).map(|i| format!("p{}.png", i)).collect();
    let files: Vec<Result<Vec<u8>, String>> = (0..32u32)
        .map(|i| if i % 3 == 0 { Err(format!("e{}", i)) } else { Ok(png_file(&solid(i, 1, 0))) })
        .collect();
    let loaded = load_all(&paths, &files, 1000, 1000);
    assert_eq!(loaded.len(), 32);
    for (i, item) in loaded.iter().enumerate() {
        if i % 3 == 0 {
            assert_eq!(item, &Err(format!("open error: e{}", i)));
        } else {
            let (_, w, h) = item.as_ref().unwrap();
            assert_eq!((*w, *h), (i as u32, 1));
        }
    }
}

#[test]
fn loaded_images_are_stored_and_reported() {
    let mut cache = ImageCache::new(10);
    let paths = vec!["a".to_string(), "b".to_string()];
    let loaded = vec![Ok((vec![1, 2, 3], 7, 8)), Err("broken".to_string())];
    let statuses = store_loaded(&mut cache, &paths, loaded, 30, 40);
    assert_eq!(statuses, vec!["loaded:a", "error:b:broken"]);
    let a = cache.get("a:30x40").unwrap();
    assert_eq!((a.data.clone(), a.width, a.height), (vec![1, 2, 3], 7, 8));
    assert_eq!(cache.len(), 1);
}

#[test]
fn a_preview_is_prepared_without_the_cache_and_entered_into_it() {
    let file = png_file(&solid(8, 4, 50));
    let preview = prepare_preview("page.png", &file, 4, 4).unwrap();
    assert_eq!((preview.0.width, preview.0.height), (4, 2));
    assert_eq!((preview.1.original_width, preview.1.original_height), (8, 4));
    assert_eq!(size_of(&preview.1.data_url), (4, 2));
    let data = preview.0.data.clone();
    let url = preview.1.data_url.clone();
    let mut cache = ImageCache::new(5);
    let result = enter_preview(&mut cache, "page.png:4x4".to_string(), preview);
    assert_eq!(result.data_url, url);
    assert_eq!(cache.get("page.png:4x4").unwrap().data, data);
    match prepare_preview("page.png", &[9, 9], 4, 4) {
        Err(EngineError::Decode(text)) => assert!(text.starts_with("Failed to open image: ")),
        _ => panic!("bytes that do not decode"),
    }
}

#[test]
fn the_paths_not_held_are_picked_in_order() {
    let paths = vec!["a".to_string(), "b".to_string(), "c".to_string(), "a".to_string()];
    assert_eq!(pick_unheld(&paths, &vec![false, true, false, false]), vec!["a", "c", "a"]);
    assert!(pick_unheld(&paths, &vec![true, true, true, true]).is_empty());
    assert!(pick_unheld(&Vec::new(), &Vec::new()).is_empty());
}

#[test]
fn loaded_results_are_stored_and_every_path_reported() {
    let mut cache = ImageCache::new(10);
    let paths = vec!["a".to_string(), "b".to_string(), "c".to_string(), "d".to_string()];
    let held = vec![false, true, false, true];
    let loaded = vec![Ok((vec![1, 2], 3, 4)), Err("open error: gone".to_string())];
    let statuses = store_preloaded(&mut cache, &paths, &held, loaded, 9, 8);
    assert_eq!(statuses, vec!["loaded:a", "cached:b", "error:c:open error: gone", "cached:d"]);
    assert_eq!(cache.len(), 1);
    let a = cache.get("a:9x8").unwrap();
    assert_eq!((a.data.clone(), a.width, a.height), (vec![1, 2], 3, 4));
    assert!(store_preloaded(&mut cache, &Vec::new(), &Vec::new(), Vec::new(), 9, 8).is_empty());
}
