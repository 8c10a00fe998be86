use mbr::link_cache::links_if_fresh;
use mbr::link_grep::InboundLinkCache;
use mbr::link_index::{InboundLink, LinkCache, OutboundLink};

fn outbound(to: &str, text: &str) -> OutboundLink {
    OutboundLink { to: to.to_string(), text: text.to_string(), anchor: None, internal: true }
}

fn inbound(from: &str, text: &str) -> InboundLink {
    InboundLink { from: from.to_string(), text: text.to_string(), anchor: None }
}

#[test]
fn test_link_cache_insert_and_get() {
    let mut cache = LinkCache::new(1024 * 1024);
    let links = vec![outbound("/other/", "Other Page")];

    cache.insert("/docs/".to_string(), links.clone());

    let retrieved = cache.get("/docs/");
    assert!(retrieved.is_some());
    assert_eq!(retrieved.unwrap(), links);
}

#[test]
fn test_link_cache_miss() {
    let cache = LinkCache::new(1024 * 1024);
    assert!(cache.get("/nonexistent/").is_none());
}

#[test]
fn test_link_cache_size_stable_on_overwrite() {
    let mut cache = LinkCache::new(1024 * 1024);
    let links = vec![outbound("/other/", "Other Page")];

    cache.insert("/docs/".to_string(), links.clone());
    let size_after_first = cache.current_size();
    assert_eq!(cache.len(), 1);

    for _ in 0..10 {
        cache.insert("/docs/".to_string(), links.clone());
    }

    assert_eq!(cache.len(), 1);
    assert_eq!(cache.current_size(), size_after_first);
}

#[test]
fn test_link_cache_size_tracks_replacement_delta() {
    let mut cache = LinkCache::new(1024 * 1024);
    let one = vec![outbound("/a/", "A")];
    let two = vec![outbound("/a/", "A"), outbound("/b/", "B")];

    cache.insert("/docs/".to_string(), one.clone());
    let small = cache.current_size();
    cache.insert("/docs/".to_string(), two.clone());
    let large = cache.current_size();

    assert_eq!(cache.len(), 1);
    let expected_delta = "/b/".len() + "B".len() + 32;
    assert_eq!(large - small, expected_delta);
}

#[test]
fn test_link_cache_invalidate_all_clears_and_resets_size() {
    let mut cache = LinkCache::new(1024 * 1024);
    let links = vec![outbound("/other/", "Other")];
    cache.insert("/a/".to_string(), links.clone());
    cache.insert("/b/".to_string(), links);
    assert_eq!(cache.len(), 2);
    assert!(cache.current_size() > 0);

    cache.invalidate_all();

    assert!(cache.is_empty());
    assert_eq!(cache.current_size(), 0);
}

#[test]
fn test_link_cache_disabled() {
    let mut cache = LinkCache::new(0);
    let links = vec![outbound("/other/", "Other")];

    cache.insert("/docs/".to_string(), links);
    assert!(cache.get("/docs/").is_none());
}

#[test]
fn link_cache_entry_size_counts_key_and_anchor_bytes() {
    let mut long_key = LinkCache::new(1024 * 1024);
    let mut short_key = LinkCache::new(1024 * 1024);
    long_key.insert("/docs/".to_string(), vec![outbound("/a/", "A")]);
    short_key.insert("/d/".to_string(), vec![outbound("/a/", "A")]);
    assert_eq!(long_key.current_size() - short_key.current_size(), 3);

    let mut anchored = LinkCache::new(1024 * 1024);
    let mut link = outbound("/a/", "A");
    link.anchor = Some("#x".to_string());
    anchored.insert("/d/".to_string(), vec![link]);
    assert_eq!(anchored.current_size() - short_key.current_size(), 2);
}

#[test]
fn link_cache_evicts_oldest_when_over_budget() {
    let mut cache = LinkCache::new(200);
    cache.insert("/a/".to_string(), vec![outbound("/x/", "X")]);
    cache.insert("/b/".to_string(), vec![outbound("/x/", "X")]);
    assert_eq!(cache.len(), 2);
    cache.insert("/c/".to_string(), vec![outbound("/x/", "X")]);
    assert!(cache.current_size() <= 200);
    assert_eq!(cache.len(), 2);
    assert!(cache.get("/a/").is_none());
    assert!(cache.get("/b/").is_some());
    assert!(cache.get("/c/").is_some());
}

#[test]
fn test_inbound_link_cache_basic() {
    let mut cache = InboundLinkCache::new(1024 * 1024, 60);
    let links = vec![inbound("/other/", "Link text")];

    cache.insert("/docs/".to_string(), links.clone());

    let retrieved = cache.get("/docs/");
    assert!(retrieved.is_some());
    assert_eq!(retrieved.unwrap().len(), 1);
}

#[test]
fn test_inbound_link_cache_size_stable_on_overwrite() {
    let mut cache = InboundLinkCache::new(1024 * 1024, 60);
    let links = vec![inbound("/other/", "Link text")];

    cache.insert("/docs/".to_string(), links.clone());
    let size_after_first = cache.current_size();
    assert_eq!(cache.len(), 1);

    for _ in 0..10 {
        cache.insert("/docs/".to_string(), links.clone());
    }

    assert_eq!(cache.len(), 1);
    assert_eq!(cache.current_size(), size_after_first);
}

#[test]
fn test_inbound_link_cache_size_tracks_replacement_delta() {
    let mut cache = InboundLinkCache::new(1024 * 1024, 60);
    let one = vec![inbound("/a/", "A")];
    let two = vec![inbound("/a/", "A"), inbound("/b/", "B")];

    cache.insert("/docs/".to_string(), one.clone());
    let small = cache.current_size();
    cache.insert("/docs/".to_string(), two.clone());
    let large = cache.current_size();

    assert_eq!(cache.len(), 1);
    let expected_delta = "/b/".len() + "B".len() + 32;
    assert_eq!(large - small, expected_delta);
}

#[test]
fn test_inbound_link_cache_disabled() {
    let mut cache = InboundLinkCache::new(0, 60);
    let links = vec![inbound("/other/", "Link")];

    cache.insert("/docs/".to_string(), links);
    assert!(cache.get("/docs/").is_none());
}

#[test]
fn inbound_link_cache_expired_entries_are_not_served() {
    let mut cache = InboundLinkCache::new(1024 * 1024, 0);
    cache.insert("/docs/".to_string(), vec![inbound("/other/", "Link")]);
    assert_eq!(cache.len(), 1);
    assert!(cache.get("/docs/").is_none());
}

#[test]
fn inbound_link_cache_invalidate_all_clears_and_resets_size() {
    let mut cache = InboundLinkCache::new(1024 * 1024, 60);
    cache.insert("/a/".to_string(), vec![inbound("/x/", "X")]);
    assert!(!cache.is_empty());
    cache.invalidate_all();
    assert!(cache.is_empty());
    assert_eq!(cache.current_size(), 0);
}

#[test]
fn links_if_fresh_serves_only_entries_younger_than_the_ttl() {
    let links = vec![inbound("/a/", "A")];
    assert_eq!(links_if_fresh(links.clone(), 59, 60), Some(links.clone()));
    assert_eq!(links_if_fresh(links.clone(), 60, 60), None);
    assert_eq!(links_if_fresh(links, 0, 0), None);
}
