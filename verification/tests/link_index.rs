use mbr::link_index::{
    is_internal_link, normalize_url_path, resolve_outbound_links, resolve_relative_url,
    resolve_relative_url_checked, sort_inbound_links, split_url_anchor, InboundLink, OutboundLink,
    PageLinks,
};

#[test]
fn test_split_url_anchor_with_anchor() {
    let (path, anchor) = split_url_anchor("/docs/guide/#section");
    assert_eq!(path, "/docs/guide/");
    assert_eq!(anchor, Some("#section".to_string()));
}

#[test]
fn test_split_url_anchor_without_anchor() {
    let (path, anchor) = split_url_anchor("/docs/guide/");
    assert_eq!(path, "/docs/guide/");
    assert_eq!(anchor, None);
}

#[test]
fn test_split_url_anchor_only_anchor() {
    let (path, anchor) = split_url_anchor("#section");
    assert_eq!(path, "");
    assert_eq!(anchor, Some("#section".to_string()));
}

#[test]
fn test_is_internal_link_external_https() {
    assert!(!is_internal_link("https://example.com"));
    assert!(!is_internal_link("http://example.com"));
}

#[test]
fn test_is_internal_link_external_protocols() {
    assert!(!is_internal_link("mailto:test@example.com"));
    assert!(!is_internal_link("tel:+1234567890"));
    assert!(!is_internal_link("javascript:void(0)"));
    assert!(!is_internal_link("data:text/html,<h1>Hi</h1>"));
    assert!(!is_internal_link("//cdn.example.com/script.js"));
}

#[test]
fn test_is_internal_link_internal() {
    assert!(is_internal_link("/docs/guide/"));
    assert!(is_internal_link("../other-page/"));
    assert!(is_internal_link("./sibling/"));
    assert!(is_internal_link("relative-path/"));
    assert!(is_internal_link("#anchor"));
}

#[test]
fn test_is_internal_link_schemes_missing_from_old_allowlist() {
    assert!(!is_internal_link("ftp://ftp.example.com/pub/file.zip"));
    assert!(!is_internal_link("ftps://ftp.example.com/pub/file.zip"));
    assert!(!is_internal_link("magnet:?xt=urn:btih:c12fe1c06bba"));
    assert!(!is_internal_link("sms:+15555550123"));
    assert!(!is_internal_link("callto:+15555550123"));
    assert!(!is_internal_link("blob:http://localhost:5220/550e8400"));
}

#[test]
fn test_is_internal_link_windows_drive_and_colon_in_path() {
    assert!(is_internal_link("C:/win/path"));
    assert!(is_internal_link("docs/a:b.md"));
}

#[test]
fn test_normalize_url_path_trailing_slash() {
    assert_eq!(normalize_url_path("/docs/guide"), "/docs/guide/");
    assert_eq!(normalize_url_path("/docs/guide/"), "/docs/guide/");
}

#[test]
fn test_normalize_url_path_file() {
    assert_eq!(normalize_url_path("/images/photo.jpg"), "/images/photo.jpg");
    assert_eq!(normalize_url_path("/docs/file.pdf"), "/docs/file.pdf");
}

#[test]
fn test_normalize_url_path_with_query() {
    assert_eq!(normalize_url_path("/docs/guide/?foo=bar"), "/docs/guide/");
}

#[test]
fn test_normalize_url_path_root() {
    assert_eq!(normalize_url_path("/"), "/");
    assert_eq!(normalize_url_path(""), "/");
}

#[test]
fn test_page_links_default() {
    let links = PageLinks::default();
    assert!(links.inbound.is_empty());
    assert!(links.outbound.is_empty());
}

fn inbound(from: &str, text: &str, anchor: Option<&str>) -> InboundLink {
    InboundLink {
        from: from.to_string(),
        text: text.to_string(),
        anchor: anchor.map(str::to_string),
    }
}

#[test]
fn test_sort_inbound_links_orders_by_source() {
    let mut links = vec![
        inbound("/zeta/", "Zeta", None),
        inbound("/docs/alpha/", "Alpha", None),
        inbound("/docs/beta/", "Beta", None),
    ];
    sort_inbound_links(&mut links);

    let sources: Vec<&str> = links.iter().map(|l| l.from.as_str()).collect();
    assert_eq!(sources, ["/docs/alpha/", "/docs/beta/", "/zeta/"]);
}

#[test]
fn test_sort_inbound_links_is_order_independent() {
    let mut forward = vec![
        inbound("/a/", "First", None),
        inbound("/b/", "Second", None),
        inbound("/c/", "Third", None),
    ];
    let mut reversed: Vec<InboundLink> = forward.iter().rev().cloned().collect();

    sort_inbound_links(&mut forward);
    sort_inbound_links(&mut reversed);

    assert_eq!(forward, reversed);
}

#[test]
fn test_sort_inbound_links_breaks_ties_on_text_then_anchor() {
    let mut links = vec![
        inbound("/src/", "Beta", None),
        inbound("/src/", "Alpha", Some("#z")),
        inbound("/src/", "Alpha", Some("#a")),
        inbound("/src/", "Alpha", None),
    ];
    sort_inbound_links(&mut links);

    let keys: Vec<(&str, Option<&str>)> = links
        .iter()
        .map(|l| (l.text.as_str(), l.anchor.as_deref()))
        .collect();
    assert_eq!(
        keys,
        [
            ("Alpha", None),
            ("Alpha", Some("#a")),
            ("Alpha", Some("#z")),
            ("Beta", None),
        ]
    );
}

#[test]
fn test_sort_inbound_links_handles_empty() {
    let mut links: Vec<InboundLink> = Vec::new();
    sort_inbound_links(&mut links);
    assert!(links.is_empty());
}

#[test]
fn sort_inbound_links_agrees_with_std_string_order() {
    let mut links = vec![
        inbound("/é/", "x", None),
        inbound("/z/", "x", None),
        inbound("/Z/", "x", None),
        inbound("/a/", "x", None),
        inbound("/a", "x", None),
    ];
    let mut expected = links.clone();
    expected.sort_by(|a, b| (&a.from, &a.text, &a.anchor).cmp(&(&b.from, &b.text, &b.anchor)));
    sort_inbound_links(&mut links);
    assert_eq!(links, expected);
}

#[test]
fn test_resolve_relative_url_index_page_sibling() {
    assert_eq!(resolve_relative_url("/modes/", "gui/", true), "/modes/gui/");
    assert_eq!(
        resolve_relative_url("/reference/", "cli/", true),
        "/reference/cli/"
    );
    assert_eq!(
        resolve_relative_url("/getting-started/", "quickstart/", true),
        "/getting-started/quickstart/"
    );
}

#[test]
fn test_resolve_relative_url_nonindex_sibling() {
    assert_eq!(
        resolve_relative_url("/docs/guide/", "intro/", false),
        "/docs/intro/"
    );
}

#[test]
fn test_resolve_relative_url_nonindex_parent_traversal() {
    assert_eq!(
        resolve_relative_url("/docs/sub/guide/", "../other/", false),
        "/docs/other/"
    );
}

#[test]
fn test_resolve_relative_url_index_parent_traversal() {
    assert_eq!(
        resolve_relative_url("/modes/", "../other/", true),
        "/other/"
    );
}

#[test]
fn test_resolve_relative_url_absolute_unchanged() {
    assert_eq!(resolve_relative_url("/modes/", "/other/", true), "/other/");
    assert_eq!(
        resolve_relative_url("/docs/guide/", "/other/", false),
        "/other/"
    );
    assert_eq!(resolve_relative_url("/modes/", "/", true), "/");
}

#[test]
fn test_resolve_relative_url_anchor_only() {
    assert_eq!(
        resolve_relative_url("/modes/", "#section", true),
        "#section"
    );
}

#[test]
fn test_resolve_relative_url_to_root() {
    assert_eq!(resolve_relative_url("/source/", "../", false), "/");
    assert_eq!(resolve_relative_url("/docs/guide/", "../../", false), "/");
    assert_eq!(resolve_relative_url("/modes/", "../", true), "/");
}

#[test]
fn test_resolve_relative_url_nonindex_nested_parent_traversal() {
    assert_eq!(
        resolve_relative_url("/docs/guide/", "../../other/", false),
        "/other/"
    );
}

#[test]
fn resolve_relative_url_checked_refuses_to_climb_above_root() {
    assert_eq!(
        resolve_relative_url_checked("/docs/guide/", "../../escape/target", false),
        None
    );
    assert_eq!(
        resolve_relative_url_checked("/docs/guide/", "../folder/file", false),
        Some("/folder/file/".to_string())
    );
    // The clamping resolver lands the same link on the root instead.
    assert_eq!(
        resolve_relative_url("/docs/guide/", "../../escape/target", false),
        "/escape/target/"
    );
}

#[test]
fn test_resolve_outbound_links_drops_anchor_only_link() {
    let links = vec![OutboundLink {
        to: String::new(),
        text: "Top".to_string(),
        anchor: Some("#top".to_string()),
        internal: true,
    }];

    let resolved = resolve_outbound_links("/docs/guide/", links, false);

    assert!(
        resolved.is_empty(),
        "anchor-only link must not become an outbound link: {resolved:?}"
    );
}

#[test]
fn test_resolve_outbound_links_keeps_real_links_alongside_anchor_only() {
    let links = vec![
        OutboundLink {
            to: String::new(),
            text: "Top".to_string(),
            anchor: Some("#top".to_string()),
            internal: true,
        },
        OutboundLink {
            to: "intro/".to_string(),
            text: "Intro".to_string(),
            anchor: None,
            internal: true,
        },
    ];

    let resolved = resolve_outbound_links("/docs/guide/", links, false);

    assert_eq!(resolved.len(), 1);
    assert_eq!(resolved[0].to, "/docs/intro/");
}

#[test]
fn resolve_outbound_links_leaves_external_and_absolute_targets() {
    let links = vec![
        OutboundLink {
            to: "https://example.com/x".to_string(),
            text: "Ext".to_string(),
            anchor: None,
            internal: false,
        },
        OutboundLink {
            to: "/abs/".to_string(),
            text: "Abs".to_string(),
            anchor: Some("#a".to_string()),
            internal: true,
        },
    ];
    let resolved = resolve_outbound_links("/docs/guide/", links.clone(), false);
    assert_eq!(resolved, links);
}

#[test]
fn normalizing_twice_changes_nothing() {
    for url in [
        "/docs/guide",
        "/docs/guide/?q=1#top",
        "/docs/file.pdf",
        "/docs/.hidden",
        "",
        "///",
        "/a//b/",
        "relative/path.md?x",
    ] {
        let once = normalize_url_path(url);
        assert_eq!(normalize_url_path(&once), once, "for {url:?}");
    }
}

#[test]
fn split_url_anchor_rejoins_to_the_url() {
    for url in ["/docs/guide/#section", "/docs/guide/", "#top", "a#b#c", ""] {
        let (path, anchor) = split_url_anchor(url);
        assert!(!path.contains('#'));
        let anchor = anchor.unwrap_or_default();
        assert!(anchor.is_empty() || anchor.starts_with('#'));
        assert_eq!(format!("{path}{anchor}"), url);
    }
}

#[test]
fn normalize_url_path_resolves_dot_segments() {
    assert_eq!(normalize_url_path("/docs/../guide"), "/guide/");
    assert_eq!(normalize_url_path("/docs/./guide/"), "/docs/guide/");
    assert_eq!(normalize_url_path("/../guide"), "/guide/");
    assert_eq!(normalize_url_path("/docs/../images/a.png"), "/images/a.png");
    assert_eq!(normalize_url_path("/docs/.."), "/");
    assert_eq!(normalize_url_path("docs/../guide"), "guide/");
    assert_eq!(normalize_url_path("/a//b#x"), "/a/b/");
}
