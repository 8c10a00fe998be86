use mbr::link_index::OutboundLink;
use mbr::page_errors::{
    ambiguous_relationship_endpoint_errors, ambiguous_wikilink_errors, classify_emitted_href,
    collect_media_references, detect_unresolved_wikilinks, frontmatter_parse_errors,
    relationship_cycle_errors, unresolved_wikilinks_in, validate_internal_links,
    validate_media_references, validate_rendered_links, AmbiguousEndpoint, AmbiguousWikilink,
    LinkDefect, MediaKind, PageError, PageErrors, RelationshipCycle, ResolvedPath,
};
use std::path::PathBuf;

/// A site with the markdown page `/docs/guide/`, the folder `/folder/`
/// holding the page `/folder/file/`, and the image `/docs/img.png`.
fn site(path: &str) -> ResolvedPath {
    match path {
        "/docs/guide/" | "/docs/guide" => ResolvedPath::MarkdownFile(PathBuf::from("docs/guide.md")),
        "/folder/file/" | "/folder/file" => ResolvedPath::MarkdownFile(PathBuf::from("folder/file.md")),
        "/folder/" | "/folder" => ResolvedPath::DirectoryListing(PathBuf::from("folder")),
        "/docs/img.png/" | "/docs/img.png" => ResolvedPath::StaticFile(PathBuf::from("docs/img.png")),
        "/docs/clip.mp4/" => ResolvedPath::StaticFile(PathBuf::from("docs/clip.mp4")),
        "/tags/rust/" => ResolvedPath::TagPage,
        "/LICENSE" | "/LICENSE/" => ResolvedPath::StaticFile(PathBuf::from("LICENSE")),
        _ => ResolvedPath::NotFound,
    }
}

fn link(to: &str, internal: bool) -> OutboundLink {
    OutboundLink {
        to: to.to_string(),
        text: "t".to_string(),
        anchor: None,
        internal,
    }
}

#[test]
fn broken_internal_link_is_reported() {
    let errs = validate_internal_links(&[link("/nonexistent/", true)], &site);
    assert_eq!(errs.len(), 1);
    assert!(matches!(
        &errs[0],
        PageError::BrokenInternalLink { target, .. } if target == "/nonexistent/"
    ));
}

#[test]
fn valid_internal_link_is_ignored() {
    assert!(validate_internal_links(&[link("/folder/file/", true)], &site).is_empty());
}

#[test]
fn external_and_fragment_links_are_ignored() {
    let links = [
        link("https://example.com/anything", false),
        link("ftp://example.com/data.zip", true),
        link("magnet:?xt=urn:btih:abc", true),
        link("sms:+15555550123", true),
        link("#section", true),
    ];
    assert!(validate_internal_links(&links, &site).is_empty());
}

#[test]
fn internal_links_report_only_missing_and_escaping_targets() {
    // A markdown page without its trailing slash is not judged here.
    let links = [link("/folder/file", true), link("/gone/", true), link("/gone/", false)];
    let errs = validate_internal_links(&links, &site);
    assert_eq!(errs.len(), 1);
    assert!(matches!(&errs[0], PageError::BrokenInternalLink { target, .. } if target == "/gone/"));
}

#[test]
fn classify_reports_each_defect() {
    let page = "/docs/guide/";
    assert_eq!(classify_emitted_href("", page, &site), None);
    assert_eq!(classify_emitted_href("#top", page, &site), None);
    assert_eq!(classify_emitted_href("?q=1", page, &site), None);
    assert_eq!(classify_emitted_href("https://x.org/", page, &site), None);
    assert_eq!(
        classify_emitted_href("../../../../escape/target/", page, &site),
        Some(LinkDefect::EscapesRoot)
    );
    assert_eq!(
        classify_emitted_href("/folder/file", page, &site),
        Some(LinkDefect::NonCanonical)
    );
    assert_eq!(classify_emitted_href("/folder/file/#x", page, &site), None);
    assert_eq!(classify_emitted_href("/folder", page, &site), None);
    assert_eq!(classify_emitted_href("/tags/rust", page, &site), None);
    assert_eq!(classify_emitted_href("/missing/", page, &site), Some(LinkDefect::Missing));
}

#[test]
fn above_root_link_to_an_existing_clamped_target_is_still_reported() {
    let html = r#"<a href="../../../folder/file/">file</a>"#;
    let errs = validate_rendered_links(html, "/docs/guide/", &site);
    assert_eq!(errs.len(), 1, "{errs:?}");
}

#[test]
fn rendered_links_are_judged_once_with_trimmed_text_and_anchor() {
    let html = r##"<p><a href="/folder/file#part">  the file </a> <a href="/folder/file#part">again</a>
        <a href="/folder/file/">fine</a> <a href="#local">here</a></p>"##;
    let errs = validate_rendered_links(html, "/docs/guide/", &site);
    assert_eq!(
        errs,
        vec![PageError::BrokenInternalLink {
            target: "/folder/file#part".to_string(),
            text: "the file".to_string(),
            anchor: Some("#part".to_string()),
        }]
    );
}

#[test]
fn broken_and_valid_media_references() {
    let html = r##"<img src="img.png"><img src="missing.png"><img src="https://x.org/a.png">
        <video src="nope.mp4"></video><audio src="gone.mp3"></audio><img src="#frag">"##;
    let errs = validate_media_references(html, "/docs/", &site);
    assert_eq!(
        errs,
        vec![
            PageError::BrokenMediaReference {
                src: "missing.png".to_string(),
                kind: MediaKind::Image
            },
            PageError::BrokenMediaReference {
                src: "nope.mp4".to_string(),
                kind: MediaKind::Video
            },
            PageError::BrokenMediaReference {
                src: "gone.mp3".to_string(),
                kind: MediaKind::Audio
            },
        ]
    );
}

#[test]
fn collect_media_references_strips_fragments_and_dedupes() {
    let html = r##"<video><source src="clip.mp4#t=30,200"></video><video src="clip.mp4"></video>
        <img src="img.png?v=2"><img src="missing.png">"##;
    let refs = collect_media_references(html, "/docs/", &site);
    assert_eq!(refs.len(), 2);
    assert_eq!(refs[0].src, "img.png");
    assert_eq!(refs[0].kind, MediaKind::Image);
    assert_eq!(refs[0].path, PathBuf::from("docs/img.png"));
    assert_eq!(refs[1].src, "clip.mp4");
    assert_eq!(refs[1].kind, MediaKind::Video);
    assert_eq!(refs[1].path, PathBuf::from("docs/clip.mp4"));
}

#[test]
fn literal_wikilink_in_body_is_reported_once() {
    let html = "<p>See [[Missing Note]] and [[Missing Note]] and [[Other|shown]].</p>";
    let errs = detect_unresolved_wikilinks(html);
    assert_eq!(
        errs,
        vec![
            PageError::UnresolvedWikilink {
                raw: "[[Missing Note]]".to_string()
            },
            PageError::UnresolvedWikilink {
                raw: "[[Other|shown]]".to_string()
            },
        ]
    );
}

#[test]
fn wikilink_inside_code_is_ignored() {
    let html = "<pre><code>[[Example]]</code></pre><p><CODE class=\"x\">[[Inline]]</CODE></p>";
    assert!(detect_unresolved_wikilinks(html).is_empty());
}

#[test]
fn wikilink_scan_stops_at_brackets_and_newlines() {
    let errs = unresolved_wikilinks_in("[[a\nb]] [[]] [[x[y]] [[[z]] [[ok]]");
    assert_eq!(
        errs,
        vec![
            PageError::UnresolvedWikilink {
                raw: "[[z]]".to_string()
            },
            PageError::UnresolvedWikilink {
                raw: "[[ok]]".to_string()
            },
        ]
    );
}

#[test]
fn frontmatter_parse_errors_none_is_empty() {
    assert!(frontmatter_parse_errors(&None).is_empty());
}

#[test]
fn frontmatter_parse_errors_some_yields_one() {
    let errs = frontmatter_parse_errors(&Some("bad yaml".to_string()));
    assert_eq!(
        errs,
        vec![PageError::FrontmatterParseError {
            message: "bad yaml".to_string()
        }]
    );
}

#[test]
fn relationship_cycle_errors_maps_every_cycle() {
    let cycles = vec![
        RelationshipCycle {
            members: vec!["/a/".to_string(), "/b/".to_string()],
            rel_type: "child".to_string(),
        },
        RelationshipCycle {
            members: vec!["/c/".to_string()],
            rel_type: "parent".to_string(),
        },
    ];
    let errs = relationship_cycle_errors(&cycles);
    assert_eq!(errs.len(), 2);
    assert_eq!(
        errs[0],
        PageError::RelationshipCycle {
            members: vec!["/a/".to_string(), "/b/".to_string()],
            rel_type: "child".to_string(),
        }
    );
}

#[test]
fn ambiguous_errors_preserve_all_candidates() {
    let endpoints = vec![AmbiguousEndpoint {
        raw: "[[John Doe]]".to_string(),
        resolved_to: "/people/john-doe/".to_string(),
        candidates: vec!["/people/john-doe-2/".to_string(), "/x/john-doe/".to_string()],
    }];
    let errs = ambiguous_relationship_endpoint_errors(&endpoints);
    assert_eq!(
        errs,
        vec![PageError::AmbiguousRelationshipEndpoint {
            raw: "[[John Doe]]".to_string(),
            resolved_to: "/people/john-doe/".to_string(),
            candidates: vec!["/people/john-doe-2/".to_string(), "/x/john-doe/".to_string()],
        }]
    );
    let wikilinks = vec![AmbiguousWikilink {
        raw: "[[Jane]]".to_string(),
        resolved_to: "/a/jane/".to_string(),
        candidates: vec!["/b/jane/".to_string()],
    }];
    let errs = ambiguous_wikilink_errors(&wikilinks);
    assert_eq!(
        errs,
        vec![PageError::AmbiguousWikilink {
            raw: "[[Jane]]".to_string(),
            resolved_to: "/a/jane/".to_string(),
            candidates: vec!["/b/jane/".to_string()],
        }]
    );
}

#[test]
fn page_errors_default_is_empty() {
    let p = PageErrors::default();
    assert!(p.page_url.is_empty());
    assert!(p.errors.is_empty());
}

#[test]
fn external_link_is_ignored() {
    let outbound = vec![OutboundLink {
        to: "https://example.com/anything".to_string(),
        text: "ext".to_string(),
        anchor: None,
        internal: false,
    }];
    assert!(validate_internal_links(&outbound, &site).is_empty());
}

#[test]
fn external_scheme_link_marked_internal_is_ignored() {
    let outbound = ["ftp://example.com/data.zip", "magnet:?xt=urn:btih:abc", "sms:+15555550123"]
        .iter()
        .map(|to| OutboundLink {
            to: (*to).to_string(),
            text: "ext".to_string(),
            anchor: None,
            internal: true,
        })
        .collect::<Vec<_>>();
    let errs = validate_internal_links(&outbound, &site);
    assert!(errs.is_empty(), "expected no errors, got: {:?}", errs);
}

#[test]
fn fragment_only_link_is_ignored() {
    let outbound = vec![OutboundLink {
        to: "#section".to_string(),
        text: "anchor".to_string(),
        anchor: Some("#section".to_string()),
        internal: true,
    }];
    assert!(validate_internal_links(&outbound, &site).is_empty());
}

#[test]
fn missing_percent_encoded_target_is_still_reported() {
    let outbound = vec![OutboundLink {
        to: "/Nope%20Missing/".to_string(),
        text: "gone".to_string(),
        anchor: None,
        internal: true,
    }];
    let errs = validate_internal_links(&outbound, &site);
    assert_eq!(errs.len(), 1);
    assert!(matches!(
        &errs[0],
        PageError::BrokenInternalLink { target, .. } if target == "/Nope%20Missing/"
    ));
}

#[test]
fn page_link_without_trailing_slash_is_reported() {
    let html = r#"<a href="../../folder/file">file</a>"#;
    let errs = validate_rendered_links(html, "/docs/guide/", &site);
    assert_eq!(errs.len(), 1, "{errs:?}");
    assert!(matches!(
        &errs[0],
        PageError::BrokenInternalLink { target, text, .. }
            if target == "../../folder/file" && text == "file"
    ));
}

#[test]
fn page_link_with_trailing_slash_is_ignored() {
    let html = r#"<a href="../../folder/file/">file</a>"#;
    assert!(
        validate_rendered_links(html, "/docs/guide/", &site).is_empty(),
        "the canonical spelling must not be flagged"
    );
}

#[test]
fn extensionless_static_file_link_is_ignored() {
    let html = r#"<a href="../../LICENSE">License</a>"#;
    assert!(
        validate_rendered_links(html, "/docs/guide/", &site).is_empty(),
        "an extension-less static file must not be asked for a trailing slash"
    );
}
