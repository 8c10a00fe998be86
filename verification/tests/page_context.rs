use mbr::link_transform::make_relative_url;
use mbr::page_context::{reading_time_minutes, sibling_neighbors, tag_labels, TagSource, UrlMode};

fn tag_source(field: &str) -> TagSource {
    TagSource {
        field: field.to_string(),
        label: None,
        label_plural: None,
    }
}

#[test]
fn test_url_mode_rewrite_absolute_is_identity() {
    assert_eq!(UrlMode::Absolute.rewrite("/docs/guide/"), "/docs/guide/");
}

#[test]
fn test_url_mode_rewrite_relative_matches_make_relative_url() {
    assert_eq!(
        UrlMode::RelativeToDepth(2).rewrite("/docs/guide/"),
        make_relative_url("/docs/guide/", 2)
    );
}

#[test]
fn url_mode_rewrite_relative_value() {
    assert_eq!(UrlMode::RelativeToDepth(2).rewrite("/docs/guide/"), "../../docs/guide/");
    assert_eq!(UrlMode::RelativeToDepth(0).rewrite("/"), "./");
}

#[test]
fn test_tag_labels_configured_source() {
    let sources = vec![tag_source("tags")];
    let (label, plural) = tag_labels(&sources, "tags", "fallback");
    assert_eq!(label, sources[0].singular_label());
    assert_eq!(plural, sources[0].plural_label());
}

#[test]
fn test_tag_labels_fallback() {
    let (label, plural) = tag_labels(&[], "performers", "Performers");
    assert_eq!(label, "Performers");
    assert_eq!(plural, "Performerss");

    let (label, plural) = tag_labels(&[], "performers", "performers");
    assert_eq!(label, "performers");
    assert_eq!(plural, "performerss");
}

#[test]
fn tag_labels_use_the_first_matching_source_and_its_labels() {
    let sources = vec![
        tag_source("tags"),
        TagSource {
            field: "people".to_string(),
            label: Some("Person".to_string()),
            label_plural: Some("People".to_string()),
        },
        TagSource {
            field: "people".to_string(),
            label: Some("Other".to_string()),
            label_plural: None,
        },
    ];
    let (label, plural) = tag_labels(&sources, "people", "x");
    assert_eq!(label, "Person");
    assert_eq!(plural, "People");
    let (label, plural) = tag_labels(&sources, "tags", "x");
    assert_eq!(label, "tags");
    assert_eq!(plural, "tagss");
}

#[test]
fn tag_source_labels_default_from_the_field() {
    let s = TagSource {
        field: "genre".to_string(),
        label: Some("Genre".to_string()),
        label_plural: None,
    };
    assert_eq!(s.url_source(), "genre");
    assert_eq!(s.singular_label(), "Genre");
    assert_eq!(s.plural_label(), "Genres");
}

#[test]
fn reading_time_rounds_up() {
    assert_eq!(reading_time_minutes(0), 0);
    assert_eq!(reading_time_minutes(1), 1);
    assert_eq!(reading_time_minutes(200), 1);
    assert_eq!(reading_time_minutes(401), 3);
}

#[test]
fn sibling_neighbors_of_the_current_page() {
    let urls = vec![
        Some("/docs/a/".to_string()),
        Some("/docs/b/".to_string()),
        None,
        Some("/docs/c/".to_string()),
    ];
    assert_eq!(sibling_neighbors(&urls, "/docs/a/"), (None, Some(1)));
    assert_eq!(sibling_neighbors(&urls, "/docs/b/"), (Some(0), Some(2)));
    assert_eq!(sibling_neighbors(&urls, "/docs/c/"), (Some(2), None));
    assert_eq!(sibling_neighbors(&urls, "/not-in-list/"), (None, None));
    assert_eq!(sibling_neighbors(&[], "/docs/a/"), (None, None));
}

#[test]
fn nav_url_per_mode() {
    assert_eq!(UrlMode::Absolute.nav_url(Some("/docs/a/")), Some("/docs/a/".to_string()));
    assert_eq!(UrlMode::Absolute.nav_url(None), None);
    assert_eq!(
        UrlMode::RelativeToDepth(2).nav_url(Some("/docs/a/")),
        Some(make_relative_url("/docs/a/", 2))
    );
    assert_eq!(UrlMode::RelativeToDepth(2).nav_url(None), Some("../../".to_string()));
}
