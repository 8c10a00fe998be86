use mbr::link_index::resolve_relative_url;
use mbr::link_transform::{
    make_relative_url, markdown_probe_target, transform_link, transform_link_answered,
    transform_link_with_probe, LinkTransformConfig,
};

fn regular_config() -> LinkTransformConfig {
    LinkTransformConfig {
        markdown_extensions: vec!["md".to_string(), "markdown".to_string()],
        index_file: "index.md".to_string(),
        is_index_file: false,
        url_depth: None,
        current_page_url: String::new(),
    }
}

fn index_config() -> LinkTransformConfig {
    LinkTransformConfig {
        is_index_file: true,
        ..regular_config()
    }
}

// =========================================================================
// Regular markdown files (is_index_file: false)
// =========================================================================

#[test]
fn test_simple_relative_md() {
    assert_eq!(transform_link("other.md", &regular_config()), "../other/");
}

#[test]
fn test_subdirectory_md() {
    assert_eq!(
        transform_link("sub/doc.md", &regular_config()),
        "../sub/doc/"
    );
}

#[test]
fn test_parent_traversal() {
    assert_eq!(
        transform_link("../other.md", &regular_config()),
        "../../other/"
    );
}

#[test]
fn test_double_parent() {
    assert_eq!(
        transform_link("../../root.md", &regular_config()),
        "../../../root/"
    );
}

#[test]
fn test_index_collapse() {
    assert_eq!(
        transform_link("folder/index.md", &regular_config()),
        "../folder/"
    );
}

#[test]
fn test_nested_index_collapse() {
    assert_eq!(transform_link("a/b/index.md", &regular_config()), "../a/b/");
}

#[test]
fn test_just_index_md() {
    // Link to index.md in same directory
    assert_eq!(transform_link("index.md", &regular_config()), "../");
}

/// Regression (mirrors `repo::test_build_markdown_url_path_myindex_not_
/// treated_as_index`): only a *whole* final segment equal to the index
/// stem collapses to a directory. `ends_with` used to mangle these into
/// `../site-/`, `../my/`, `../re/` and `../sub/` — the last of which can
/// silently point at a real but different page.
#[test]
fn test_index_lookalike_stems_keep_their_own_url() {
    let cases = [
        ("site-index.md", "../site-index/"),
        ("myindex.md", "../myindex/"),
        ("reindex.md", "../reindex/"),
        ("subindex.md", "../subindex/"),
        ("docs/site-index.md", "../docs/site-index/"),
    ];

    for (input, expected) in cases {
        assert_eq!(transform_link(input, &regular_config()), expected);
    }

    // Index files themselves still collapse to the folder URL.
    assert_eq!(
        transform_link("docs/index.md", &regular_config()),
        "../docs/"
    );
    assert_eq!(transform_link("index.md", &regular_config()), "../");
}

#[test]
fn test_index_lookalike_stems_from_index_page() {
    assert_eq!(transform_link("subindex.md", &index_config()), "subindex/");
    assert_eq!(transform_link("docs/index.md", &index_config()), "docs/");
}

#[test]
fn test_static_file() {
    assert_eq!(
        transform_link("image.png", &regular_config()),
        "../image.png"
    );
}

#[test]
fn test_nested_static() {
    assert_eq!(
        transform_link("assets/img.png", &regular_config()),
        "../assets/img.png"
    );
}

#[test]
fn test_md_with_anchor() {
    assert_eq!(
        transform_link("other.md#section", &regular_config()),
        "../other/#section"
    );
}

#[test]
fn test_md_with_query() {
    assert_eq!(
        transform_link("other.md?foo=bar", &regular_config()),
        "../other/?foo=bar"
    );
}

#[test]
fn test_md_with_query_and_anchor() {
    assert_eq!(
        transform_link("other.md?foo=bar#section", &regular_config()),
        "../other/?foo=bar#section"
    );
}

#[test]
fn test_explicit_current_dir() {
    assert_eq!(transform_link("./other.md", &regular_config()), "../other/");
}

#[test]
fn test_alternate_extension() {
    assert_eq!(
        transform_link("other.markdown", &regular_config()),
        "../other/"
    );
}

#[test]
fn test_parent_static_file() {
    assert_eq!(
        transform_link("../image.png", &regular_config()),
        "../../image.png"
    );
}

// =========================================================================
// Index files (is_index_file: true)
// =========================================================================

#[test]
fn test_index_simple_relative_md() {
    assert_eq!(transform_link("other.md", &index_config()), "other/");
}

#[test]
fn test_index_subdirectory_md() {
    assert_eq!(transform_link("sub/doc.md", &index_config()), "sub/doc/");
}

#[test]
fn test_index_parent_traversal() {
    assert_eq!(transform_link("../other.md", &index_config()), "../other/");
}

#[test]
fn test_index_double_parent() {
    assert_eq!(
        transform_link("../../root.md", &index_config()),
        "../../root/"
    );
}

#[test]
fn test_index_static_file() {
    // Index files don't need ../ for siblings
    assert_eq!(transform_link("image.png", &index_config()), "image.png");
}

#[test]
fn test_index_nested_static() {
    assert_eq!(
        transform_link("assets/img.png", &index_config()),
        "assets/img.png"
    );
}

#[test]
fn test_index_md_with_anchor() {
    assert_eq!(
        transform_link("other.md#section", &index_config()),
        "other/#section"
    );
}

#[test]
fn test_index_parent_static() {
    assert_eq!(
        transform_link("../image.png", &index_config()),
        "../image.png"
    );
}

#[test]
fn test_index_to_index_collapse() {
    assert_eq!(
        transform_link("folder/index.md", &index_config()),
        "folder/"
    );
}

// =========================================================================
// URLs that should be unchanged (both modes)
// =========================================================================

#[test]
fn test_absolute_https() {
    let url = "https://example.com/path";
    assert_eq!(transform_link(url, &regular_config()), url);
    assert_eq!(transform_link(url, &index_config()), url);
}

#[test]
fn test_absolute_http() {
    let url = "http://example.com/path";
    assert_eq!(transform_link(url, &regular_config()), url);
    assert_eq!(transform_link(url, &index_config()), url);
}

#[test]
fn test_protocol_relative() {
    let url = "//cdn.example.com/file.js";
    assert_eq!(transform_link(url, &regular_config()), url);
    assert_eq!(transform_link(url, &index_config()), url);
}

#[test]
fn test_root_relative() {
    let url = "/docs/guide/";
    assert_eq!(transform_link(url, &regular_config()), url);
    assert_eq!(transform_link(url, &index_config()), url);
}

#[test]
fn test_anchor_only() {
    let url = "#section";
    assert_eq!(transform_link(url, &regular_config()), url);
    assert_eq!(transform_link(url, &index_config()), url);
}

#[test]
fn test_empty_link() {
    assert_eq!(transform_link("", &regular_config()), "");
    assert_eq!(transform_link("", &index_config()), "");
}

#[test]
fn test_data_url() {
    let url = "data:image/png;base64,abc123";
    assert_eq!(transform_link(url, &regular_config()), url);
}

#[test]
fn test_data_image_url_unchanged() {
    // A realistic data: image URL must pass through untouched (no ../).
    let url = "data:image/png;base64,iVBORw0KGgoAAAANSUhEUgAAAAEAAAABCAYAAAAfFcSJ";
    assert_eq!(transform_link(url, &regular_config()), url);
    assert_eq!(transform_link(url, &index_config()), url);
}

#[test]
fn test_blob_url_unchanged() {
    // The Crepe editor mints blob: URLs for pasted images before upload;
    // rewriting one to `../blob:...` would break the in-editor preview.
    let url = "blob:http://localhost:5220/550e8400-e29b-41d4-a716-446655440000";
    assert_eq!(transform_link(url, &regular_config()), url);
    assert_eq!(transform_link(url, &index_config()), url);
}

#[test]
fn test_javascript_url() {
    let url = "javascript:void(0)";
    assert_eq!(transform_link(url, &regular_config()), url);
}

#[test]
fn test_mailto_url() {
    let url = "mailto:test@example.com";
    assert_eq!(transform_link(url, &regular_config()), url);
}

#[test]
fn test_ftp_url() {
    let url = "ftp://ftp.example.com/file.txt";
    assert_eq!(transform_link(url, &regular_config()), url);
}

#[test]
fn test_scheme_urls_unchanged() {
    // Regression: `magnet:` was rewritten to `../magnet:?…` and `ftps:`
    // to `../ftps:/…` because each scheme had to be enumerated by hand.
    for url in [
        "ftps://ftp.example.com/file.txt",
        "magnet:?xt=urn:btih:c12fe1c06bba254a9dc9",
        "sms:+15555550123",
        "callto:+15555550123",
        "ssh://git@example.com/repo.git",
    ] {
        assert_eq!(transform_link(url, &regular_config()), url);
        assert_eq!(transform_link(url, &index_config()), url);
    }
}

#[test]
fn test_colon_in_relative_path_is_still_transformed() {
    // A colon after a slash is not a scheme, so the link must still be
    // rewritten for the trailing-slash URL convention.
    assert_eq!(
        transform_link("docs/a:b.md", &regular_config()),
        "../docs/a:b/"
    );
}

// =========================================================================
// Edge cases
// =========================================================================

#[test]
fn test_file_with_dots_in_name() {
    // my.file.md should only strip the final .md
    assert_eq!(
        transform_link("my.file.md", &regular_config()),
        "../my.file/"
    );
}

#[test]
fn test_non_md_extension() {
    assert_eq!(
        transform_link("readme.txt", &regular_config()),
        "../readme.txt"
    );
}

#[test]
fn test_just_query() {
    // Edge case: just a query string
    assert_eq!(transform_link("?foo=bar", &regular_config()), "?foo=bar");
}

#[test]
fn test_deeply_nested_path() {
    assert_eq!(
        transform_link("a/b/c/d/file.md", &regular_config()),
        "../a/b/c/d/file/"
    );
}

#[test]
fn test_mixed_traversal_and_descent() {
    assert_eq!(
        transform_link("../sibling/doc.md", &regular_config()),
        "../../sibling/doc/"
    );
}

// =========================================================================
// Root-relative URL transformation with url_depth (build mode)
// =========================================================================

fn build_config(depth: usize) -> LinkTransformConfig {
    LinkTransformConfig {
        url_depth: Some(depth),
        ..regular_config()
    }
}

#[test]
fn test_root_relative_with_depth_0() {
    assert_eq!(
        transform_link("/videos/demo.mp4", &build_config(0)),
        "videos/demo.mp4"
    );
}

#[test]
fn test_root_relative_with_depth_1() {
    assert_eq!(
        transform_link("/videos/demo.mp4", &build_config(1)),
        "../videos/demo.mp4"
    );
}

#[test]
fn test_root_relative_with_depth_2() {
    assert_eq!(
        transform_link("/videos/demo.mp4", &build_config(2)),
        "../../videos/demo.mp4"
    );
}

#[test]
fn test_root_relative_to_root_with_depth() {
    assert_eq!(transform_link("/", &build_config(0)), "./");
    assert_eq!(transform_link("/", &build_config(1)), "../");
    assert_eq!(transform_link("/", &build_config(2)), "../../");
}

#[test]
fn test_root_relative_tag_link_with_depth() {
    assert_eq!(
        transform_link("/tags/rust/", &build_config(2)),
        "../../tags/rust/"
    );
}

#[test]
fn test_root_relative_unchanged_without_depth() {
    // Server mode (url_depth: None) leaves root-relative unchanged
    assert_eq!(
        transform_link("/videos/demo.mp4", &regular_config()),
        "/videos/demo.mp4"
    );
    assert_eq!(
        transform_link("/tags/rust/", &regular_config()),
        "/tags/rust/"
    );
}

// =========================================================================
// make_relative_url
// =========================================================================

#[test]
fn test_make_relative_url_to_root() {
    assert_eq!(make_relative_url("/", 0), "./");
    assert_eq!(make_relative_url("/", 1), "../");
    assert_eq!(make_relative_url("/", 2), "../../");
}

#[test]
fn test_make_relative_url_to_path() {
    assert_eq!(make_relative_url("/docs/", 0), "docs/");
    assert_eq!(make_relative_url("/docs/guide/", 0), "docs/guide/");
    assert_eq!(make_relative_url("/docs/", 1), "../docs/");
    assert_eq!(make_relative_url("/other/", 1), "../other/");
    assert_eq!(make_relative_url("/docs/", 2), "../../docs/");
    assert_eq!(make_relative_url("/docs/guide/", 2), "../../docs/guide/");
}


#[test]
fn doc_example_transforms() {
    let config = LinkTransformConfig {
        markdown_extensions: vec!["md".to_string()],
        index_file: "index.md".to_string(),
        is_index_file: false,
        url_depth: None,
        current_page_url: String::new(),
    };
    assert_eq!(transform_link("other.md", &config), "../other/");
    let index_config = LinkTransformConfig { is_index_file: true, ..config.clone() };
    assert_eq!(transform_link("other.md", &index_config), "other/");
    assert_eq!(transform_link("https://example.com", &config), "https://example.com");
}

#[test]
fn default_config_uses_md_and_index_md() {
    let config = LinkTransformConfig::default();
    assert_eq!(config.markdown_extensions, vec!["md".to_string()]);
    assert_eq!(config.index_file, "index.md");
    assert!(!config.is_index_file);
    assert_eq!(config.url_depth, None);
    assert_eq!(config.current_page_url, "");
}

#[test]
fn extensionless_target_is_unchanged_without_a_probe() {
    let config = LinkTransformConfig {
        markdown_extensions: vec!["md".to_string()],
        index_file: "index.md".to_string(),
        is_index_file: false,
        url_depth: None,
        current_page_url: "/docs/guide/".to_string(),
    };
    assert_eq!(
        transform_link("../folder/file", &config),
        "../../folder/file"
    );
    assert_eq!(transform_link("../LICENSE", &config), "../../LICENSE");
}

fn page_config(page_url: &str, is_index_file: bool) -> LinkTransformConfig {
    LinkTransformConfig {
        markdown_extensions: vec!["md".to_string()],
        index_file: "index.md".to_string(),
        is_index_file,
        url_depth: None,
        current_page_url: page_url.to_string(),
    }
}

/// A probe standing in for the repository: these absolute URLs are pages.
fn is_page(url: &str) -> bool {
    ["/docs/guide/", "/docs/other/", "/folder/file/", "/root/", "/a/b/d/"].contains(&url)
}

#[test]
fn probe_adds_the_trailing_slash_to_extensionless_page_links() {
    let config = page_config("/docs/guide/", false);
    assert_eq!(
        transform_link_with_probe("../folder/file", &config, &is_page),
        "../../folder/file/"
    );
    assert_eq!(
        transform_link_with_probe("other#anchor", &config, &is_page),
        "../other/#anchor"
    );
    // Static files keep their exact name.
    assert_eq!(
        transform_link_with_probe("Makefile", &config, &is_page),
        "../Makefile"
    );
    assert_eq!(
        transform_link_with_probe("../LICENSE", &config, &is_page),
        "../../LICENSE"
    );
    let index = page_config("/docs/", true);
    assert_eq!(transform_link_with_probe("guide", &index, &is_page), "guide/");
}

#[test]
fn probe_target_is_the_resolved_absolute_url() {
    let config = page_config("/docs/guide/", false);
    assert_eq!(
        markdown_probe_target("../folder/file", &config),
        Some("/folder/file/".to_string())
    );
    assert_eq!(markdown_probe_target("other.md", &config), None);
    assert_eq!(markdown_probe_target("other/", &config), None);
    assert_eq!(markdown_probe_target("/docs/", &config), None);
    assert_eq!(markdown_probe_target("https://x.y/z", &config), None);
}

#[test]
fn probe_is_not_consulted_without_a_current_page_url() {
    let config = page_config("", false);
    assert_eq!(markdown_probe_target("../folder/file", &config), None);
    assert_eq!(
        transform_link_with_probe("../folder/file", &config, &|_: &str| true),
        "../../folder/file"
    );
}

#[test]
fn above_root_traversal_is_not_dressed_up_as_a_page() {
    let config = page_config("/docs/guide/", false);
    assert_eq!(markdown_probe_target("../../escape/target", &config), None);
    let emitted = transform_link_with_probe("../../escape/target", &config, &|_: &str| true);
    assert_eq!(emitted, "../../../escape/target");
}

#[test]
fn answered_transform_matches_probe_answer() {
    let config = page_config("/a/b/c/", false);
    assert_eq!(transform_link_answered("d", &config, true), "../d/");
    assert_eq!(transform_link_answered("d", &config, false), "../d");
}

// ---------------------------------------------------------------------
// Following emitted links the way a browser does (RFC 3986 §5.2).
// ---------------------------------------------------------------------

fn pop_last_segment(output: &mut String) {
    match output.rfind('/') {
        Some(index) => output.truncate(index),
        None => output.clear(),
    }
}

fn remove_dot_segments(path: &str) -> String {
    let mut input = path.to_string();
    let mut output = String::new();
    while !input.is_empty() {
        if let Some(rest) = input.strip_prefix("../") {
            input = rest.to_string();
        } else if let Some(rest) = input.strip_prefix("./") {
            input = rest.to_string();
        } else if let Some(rest) = input.strip_prefix("/./") {
            input = format!("/{rest}");
        } else if input == "/." {
            input = "/".to_string();
        } else if let Some(rest) = input.strip_prefix("/../") {
            input = format!("/{rest}");
            pop_last_segment(&mut output);
        } else if input == "/.." {
            input = "/".to_string();
            pop_last_segment(&mut output);
        } else if input == "." || input == ".." {
            input.clear();
        } else {
            let end = if let Some(rest) = input.strip_prefix('/') {
                rest.find('/').map(|i| i + 1).unwrap_or(input.len())
            } else {
                input.find('/').unwrap_or(input.len())
            };
            output.push_str(&input[..end]);
            input = input[end..].to_string();
        }
    }
    output
}

fn merge(base_path: &str, reference_path: &str) -> String {
    match base_path.rfind('/') {
        Some(index) => format!("{}{}", &base_path[..=index], reference_path),
        None => format!("/{reference_path}"),
    }
}

fn resolve_in_browser(base: &str, reference: &str) -> String {
    let (without_fragment, fragment) = match reference.split_once('#') {
        Some((head, tail)) => (head, format!("#{tail}")),
        None => (reference, String::new()),
    };
    let (ref_path, query) = match without_fragment.split_once('?') {
        Some((head, tail)) => (head, format!("?{tail}")),
        None => (without_fragment, String::new()),
    };
    let target = if ref_path.is_empty() {
        base.to_string()
    } else if ref_path.starts_with('/') {
        remove_dot_segments(ref_path)
    } else {
        remove_dot_segments(&merge(base, ref_path))
    };
    format!("{target}{query}{fragment}")
}

/// The repository the cases are authored against: each markdown file with
/// the URL it is served at. `LICENSE`, `docs/Makefile`, `folder/Dockerfile`
/// and `docs/photo.png` are static files beside them.
const FIXTURE_PAGES: &[(&str, &str)] = &[
    ("index.md", "/"),
    ("root.md", "/root/"),
    ("docs/index.md", "/docs/"),
    ("docs/guide.md", "/docs/guide/"),
    ("docs/other.md", "/docs/other/"),
    ("folder/file.md", "/folder/file/"),
    ("folder/sibling.md", "/folder/sibling/"),
    ("a/b/c.md", "/a/b/c/"),
    ("a/b/d.md", "/a/b/d/"),
];

fn fixture_page_url(source_rel: &str) -> String {
    FIXTURE_PAGES
        .iter()
        .find(|(file, _)| *file == source_rel)
        .map(|(_, url)| url.to_string())
        .expect("fixture page")
}

fn fixture_is_page(url: &str) -> bool {
    FIXTURE_PAGES.iter().any(|(_, page)| *page == url)
}

fn fixture_config(source_rel: &str) -> LinkTransformConfig {
    LinkTransformConfig {
        markdown_extensions: vec!["md".to_string()],
        index_file: "index.md".to_string(),
        is_index_file: source_rel == "index.md" || source_rel.ends_with("/index.md"),
        url_depth: None,
        current_page_url: fixture_page_url(source_rel),
    }
}

fn follow(source_rel: &str, href: &str) -> (String, String) {
    let config = fixture_config(source_rel);
    let emitted = transform_link_with_probe(href, &config, &fixture_is_page);
    let landed = resolve_in_browser(&config.current_page_url, &emitted);
    (emitted, landed)
}

#[test]
fn browser_model_matches_rfc_3986_examples() {
    assert_eq!(resolve_in_browser("/b/c/d;p", "g"), "/b/c/g");
    assert_eq!(resolve_in_browser("/b/c/d;p", "./g"), "/b/c/g");
    assert_eq!(resolve_in_browser("/b/c/d;p", "g/"), "/b/c/g/");
    assert_eq!(resolve_in_browser("/b/c/d;p", "/g"), "/g");
    assert_eq!(resolve_in_browser("/b/c/d;p", "../g"), "/b/g");
    assert_eq!(resolve_in_browser("/b/c/d;p", "../../g"), "/g");
    assert_eq!(resolve_in_browser("/b/c/d;p", "../../../g"), "/g");
    assert_eq!(resolve_in_browser("/b/c/d;p", "../../../../g"), "/g");
    assert_eq!(resolve_in_browser("/b/c/d;p", "g?y"), "/b/c/g?y");
    assert_eq!(resolve_in_browser("/b/c/d;p", "g#s"), "/b/c/g#s");
    assert_eq!(resolve_in_browser("/b/c/d;p", "g?y#s"), "/b/c/g?y#s");
    assert_eq!(resolve_in_browser("/docs/guide/", "../other/"), "/docs/other/");
}

#[test]
fn every_link_form_lands_on_its_canonical_url() {
    let cases: &[(&str, &str, &str)] = &[
        ("root.md", "docs/guide.md", "/docs/guide/"),
        ("root.md", "docs/guide", "/docs/guide/"),
        ("root.md", "docs/guide/", "/docs/guide/"),
        ("root.md", "./docs/guide.md", "/docs/guide/"),
        ("root.md", "docs/index.md", "/docs/"),
        ("root.md", "docs/guide.md#anchor", "/docs/guide/#anchor"),
        ("root.md", "docs/guide.md?q=1", "/docs/guide/?q=1"),
        ("root.md", "LICENSE", "/LICENSE"),
        ("root.md", "docs/photo.png", "/docs/photo.png"),
        ("index.md", "docs/guide.md", "/docs/guide/"),
        ("index.md", "docs/guide", "/docs/guide/"),
        ("index.md", "root.md", "/root/"),
        ("index.md", "LICENSE", "/LICENSE"),
        ("docs/guide.md", "other.md", "/docs/other/"),
        ("docs/guide.md", "other", "/docs/other/"),
        ("docs/guide.md", "other/", "/docs/other/"),
        ("docs/guide.md", "./other.md", "/docs/other/"),
        ("docs/guide.md", "index.md", "/docs/"),
        ("docs/guide.md", "../root.md", "/root/"),
        ("docs/guide.md", "../root", "/root/"),
        ("docs/guide.md", "../folder/file.md", "/folder/file/"),
        ("docs/guide.md", "../folder/file", "/folder/file/"),
        ("docs/guide.md", "../index.md", "/"),
        ("docs/guide.md", "other.md#anchor", "/docs/other/#anchor"),
        ("docs/guide.md", "other.md?q=1", "/docs/other/?q=1"),
        ("docs/guide.md", "other#anchor", "/docs/other/#anchor"),
        ("docs/guide.md", "Makefile", "/docs/Makefile"),
        ("docs/guide.md", "../LICENSE", "/LICENSE"),
        ("docs/guide.md", "../folder/Dockerfile", "/folder/Dockerfile"),
        ("docs/guide.md", "photo.png", "/docs/photo.png"),
        ("docs/index.md", "guide.md", "/docs/guide/"),
        ("docs/index.md", "guide", "/docs/guide/"),
        ("docs/index.md", "guide/", "/docs/guide/"),
        ("docs/index.md", "./guide.md", "/docs/guide/"),
        ("docs/index.md", "../root.md", "/root/"),
        ("docs/index.md", "../root", "/root/"),
        ("docs/index.md", "../folder/file", "/folder/file/"),
        ("docs/index.md", "Makefile", "/docs/Makefile"),
        ("docs/index.md", "../LICENSE", "/LICENSE"),
        ("docs/index.md", "guide.md#anchor", "/docs/guide/#anchor"),
        ("a/b/c.md", "d.md", "/a/b/d/"),
        ("a/b/c.md", "d", "/a/b/d/"),
        ("a/b/c.md", "./d.md", "/a/b/d/"),
        ("a/b/c.md", "../../root.md", "/root/"),
        ("a/b/c.md", "../../root", "/root/"),
        ("a/b/c.md", "../../docs/guide.md", "/docs/guide/"),
        ("a/b/c.md", "../../docs/guide", "/docs/guide/"),
        ("a/b/c.md", "../../LICENSE", "/LICENSE"),
        ("a/b/c.md", "../../index.md", "/"),
        ("a/b/c.md", "d.md?q=1#anchor", "/a/b/d/?q=1#anchor"),
    ];
    for (source, href, expected) in cases {
        let (emitted, landed) = follow(source, href);
        assert_eq!(
            &landed, expected,
            "[{source}] `{href}` emitted `{emitted}` and landed on `{landed}`, expected `{expected}`"
        );
    }
}

#[test]
fn extensionless_markdown_link_lands_where_the_dot_md_form_does() {
    let (with_ext, landed_with_ext) = follow("docs/guide.md", "../folder/file.md");
    let (without_ext, landed_without_ext) = follow("docs/guide.md", "../folder/file");
    assert_eq!(with_ext, "../../folder/file/");
    assert_eq!(without_ext, "../../folder/file/");
    assert_eq!(landed_with_ext, "/folder/file/");
    assert_eq!(landed_without_ext, "/folder/file/");
}

#[test]
fn links_on_the_landed_page_still_resolve() {
    for authored in ["../folder/file.md", "../folder/file", "../folder/file/"] {
        let (_, landed) = follow("docs/guide.md", authored);
        assert_eq!(
            landed,
            fixture_page_url("folder/file.md"),
            "`{authored}` must land on the target's canonical URL"
        );
        let (emitted, second) = follow("folder/file.md", "sibling.md");
        assert_eq!(second, "/folder/sibling/");
        let non_canonical = landed.trim_end_matches('/');
        assert_ne!(resolve_in_browser(non_canonical, &emitted), "/folder/sibling/");
    }
}

#[test]
fn build_mode_root_relative_links_land_on_the_same_url() {
    for source in ["root.md", "index.md", "docs/guide.md", "docs/index.md", "a/b/c.md"] {
        let base = fixture_page_url(source);
        let depth = base.trim_matches('/').split('/').filter(|s| !s.is_empty()).count();
        let mut config = fixture_config(source);
        config.url_depth = Some(depth);
        for target in ["/docs/guide/", "/folder/file/", "/"] {
            let emitted = transform_link_with_probe(target, &config, &fixture_is_page);
            assert_eq!(
                resolve_in_browser(&base, &emitted),
                target,
                "[{source}] root-relative `{target}` emitted `{emitted}`"
            );
        }
    }
}

#[test]
fn made_relative_urls_resolve_back_from_pages_that_deep() {
    for (page, depth) in [("/", 0usize), ("/docs/", 1), ("/docs/guide/", 2), ("/a/b/c/", 3)] {
        for target in ["/docs/guide/", "/", "/folder/file/"] {
            let rel = make_relative_url(target, depth);
            assert_eq!(resolve_relative_url(page, &rel, true), target, "{page} {target} {rel}");
        }
    }
    // Fewer folders than the depth still reach the root first.
    assert_eq!(resolve_relative_url("/docs/", &make_relative_url("/x/", 3), true), "/x/");
}
