use mbr::launch::{first_local_path, is_loopback_host};
use std::path::PathBuf;

#[test]
fn test_is_loopback_host_loopback_addresses() {
    assert!(is_loopback_host([127, 0, 0, 1]));
    assert!(is_loopback_host([127, 1, 2, 3]));
}

#[test]
fn test_is_loopback_host_non_loopback_addresses() {
    assert!(!is_loopback_host([0, 0, 0, 0]));
    assert!(!is_loopback_host([192, 168, 1, 10]));
    assert!(!is_loopback_host([10, 0, 0, 1]));
}

fn file_url(path: &str) -> url::Url {
    url::Url::from_file_path(path).expect("absolute path")
}

#[test]
fn finds_the_first_file_url() {
    let urls = vec![url::Url::parse("https://example.com").unwrap(), file_url("/tmp/readme.md")];
    assert_eq!(first_local_path(&urls), Some(PathBuf::from("/tmp/readme.md")));
}

#[test]
fn ignores_non_file_urls() {
    let urls = vec![
        url::Url::parse("https://example.com").unwrap(),
        url::Url::parse("mbr://some/deep-link").unwrap(),
    ];
    assert_eq!(first_local_path(&urls), None);
}

#[test]
fn empty_urls_returns_none() {
    assert_eq!(first_local_path(&[]), None);
}

#[test]
fn picks_the_first_of_several_file_urls() {
    let urls = vec![file_url("/tmp/a.md"), file_url("/tmp/b.md")];
    assert_eq!(first_local_path(&urls), Some(PathBuf::from("/tmp/a.md")));
}

#[test]
fn first_found_path_takes_the_first_conversion_that_succeeded() {
    assert_eq!(mbr::launch::first_found_path(vec![]), None);
    assert_eq!(mbr::launch::first_found_path(vec![None, None]), None);
    assert_eq!(
        mbr::launch::first_found_path(vec![None, Some(PathBuf::from("/a")), Some(PathBuf::from("/b"))]),
        Some(PathBuf::from("/a"))
    );
}
