use mbr::oembed::PageInfo;
use mbr::oembed_cache::OembedCache;

fn make_page_info(url: &str) -> PageInfo {
    PageInfo {
        url: url.to_string(),
        title: Some("Test Title".to_string()),
        description: Some("Test description".to_string()),
        image: None,
        embed_html: None,
    }
}

#[test]
fn test_insert_and_retrieve() {
    let mut cache = OembedCache::new(1024 * 1024);
    let url = "https://example.com/page";
    let info = make_page_info(url);
    cache.insert(url.to_string(), info.clone());
    let retrieved = cache.get(url);
    assert!(retrieved.is_some());
    assert_eq!(retrieved.unwrap().url, url);
}

#[test]
fn test_cache_miss() {
    let mut cache = OembedCache::new(1024 * 1024);
    assert!(cache.get("https://nonexistent.com").is_none());
}

#[test]
fn test_disabled_cache() {
    let mut cache = OembedCache::new(0);
    let url = "https://example.com";
    cache.insert(url.to_string(), make_page_info(url));
    assert!(cache.get(url).is_none());
}

#[test]
fn test_size_tracking() {
    let mut cache = OembedCache::new(1024 * 1024);
    assert_eq!(cache.current_size(), 0);
    let url = "https://example.com";
    cache.insert(url.to_string(), make_page_info(url));
    assert!(cache.current_size() > 0);
}

#[test]
fn test_eviction_on_size_limit() {
    let mut cache = OembedCache::new(500);
    for i in 0..10 {
        let url = format!("https://example.com/page{}", i);
        let info = make_page_info(&url);
        cache.insert(url, info);
    }
    assert!(cache.current_size() <= 500);
}

#[test]
fn test_multiple_entries() {
    let mut cache = OembedCache::new(1024 * 1024);
    let urls = vec!["https://example.com/page1", "https://example.com/page2", "https://example.com/page3"];
    for url in &urls {
        cache.insert(url.to_string(), make_page_info(url));
    }
    assert_eq!(cache.len(), 3);
    for url in &urls {
        assert!(cache.get(url).is_some());
    }
}

#[test]
fn test_overwrite_existing() {
    let mut cache = OembedCache::new(1024 * 1024);
    let url = "https://example.com";
    let info1 = PageInfo { url: url.to_string(), title: Some("First Title".to_string()), ..Default::default() };
    let info2 = PageInfo { url: url.to_string(), title: Some("Second Title".to_string()), ..Default::default() };
    cache.insert(url.to_string(), info1);
    cache.insert(url.to_string(), info2);
    let retrieved = cache.get(url).unwrap();
    assert_eq!(retrieved.title, Some("Second Title".to_string()));
}

#[test]
fn overwriting_an_entry_keeps_the_size_stable() {
    let mut cache = OembedCache::new(1024 * 1024);
    let url = "https://example.com/a";
    cache.insert(url.to_string(), make_page_info(url));
    let once = cache.current_size();
    for _ in 0..5 {
        cache.insert(url.to_string(), make_page_info(url));
    }
    assert_eq!(cache.len(), 1);
    assert_eq!(cache.current_size(), once);
}

#[test]
fn the_least_recently_used_entry_is_evicted_first() {
    let a = "https://example.com/a";
    let b = "https://example.com/b";
    let c = "https://example.com/c";
    let mut probe = OembedCache::new(1024 * 1024);
    probe.insert(a.to_string(), make_page_info(a));
    let one = probe.current_size();
    // Room for exactly two entries of this size.
    let mut cache = OembedCache::new(2 * one + one / 2);
    cache.insert(a.to_string(), make_page_info(a));
    cache.insert(b.to_string(), make_page_info(b));
    // Reading `a` makes `b` the least recently used.
    assert!(cache.get(a).is_some());
    cache.insert(c.to_string(), make_page_info(c));
    assert_eq!(cache.len(), 2);
    assert!(cache.get(b).is_none());
    assert!(cache.get(a).is_some());
    assert!(cache.get(c).is_some());
    assert!(cache.current_size() <= 2 * one + one / 2);
}
