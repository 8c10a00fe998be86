use mbr::link_grep::{
    add_pattern_variants, build_folder_patterns, collect_inbound_links_in,
    compute_patterns_for_folder, compute_relative_path, default_link_text_of,
    finish_inbound_links, get_folder_url_path, page_and_folder_urls, strip_code_regions, url_path_of, wikilink_names,
    wikilink_names_for_target, CodeStripped,
};
use mbr::frontmatter::extract_metadata_from_text;
use mbr::link_index::InboundLink;

#[test]
fn test_compute_relative_path_same_directory() {
    assert_eq!(compute_relative_path("/a/", "/a/1"), "1");
    assert_eq!(compute_relative_path("/a/", "/a/1/"), "1");
}

#[test]
fn test_compute_relative_path_subdirectory() {
    assert_eq!(compute_relative_path("/a/", "/a/b/1"), "b/1");
    assert_eq!(compute_relative_path("/a/", "/a/b/c/1"), "b/c/1");
}

#[test]
fn test_compute_relative_path_parent_directory() {
    assert_eq!(compute_relative_path("/a/b/", "/a/1"), "../1");
    assert_eq!(compute_relative_path("/a/b/c/", "/a/1"), "../../1");
}

#[test]
fn test_compute_relative_path_sibling_directory() {
    assert_eq!(compute_relative_path("/a/", "/b/1"), "../b/1");
    assert_eq!(compute_relative_path("/a/", "/b/c/1"), "../b/c/1");
}

#[test]
fn test_compute_relative_path_deep_nesting() {
    assert_eq!(
        compute_relative_path("/a/b/c/", "/d/e/f/1"),
        "../../../d/e/f/1"
    );
}

#[test]
fn test_compute_relative_path_from_root() {
    assert_eq!(compute_relative_path("/", "/a/b/1"), "a/b/1");
}

#[test]
fn test_compute_relative_path_to_root_level() {
    assert_eq!(compute_relative_path("/a/b/", "/1"), "../../1");
}

#[test]
fn compute_relative_path_same_folder_is_dot() {
    assert_eq!(compute_relative_path("/a/b/", "/a/b/"), ".");
    assert_eq!(compute_relative_path("/", "/"), ".");
}

#[test]
fn test_compute_patterns_for_folder_root() {
    let patterns = compute_patterns_for_folder("/", "/a/b/c/1/");

    assert!(patterns.contains(&"/a/b/c/1".to_string()));
    assert!(patterns.contains(&"/a/b/c/1/".to_string()));
    assert!(patterns.contains(&"/a/b/c/1.md".to_string()));
    assert!(patterns.contains(&"/a/b/c/1#".to_string()));

    assert!(patterns.contains(&"a/b/c/1".to_string()));
    assert!(patterns.contains(&"a/b/c/1/".to_string()));
    assert!(patterns.contains(&"./a/b/c/1".to_string()));
    assert!(patterns.contains(&"./a/b/c/1/".to_string()));
}

#[test]
fn test_compute_patterns_for_folder_same_directory() {
    let patterns = compute_patterns_for_folder("/a/b/", "/a/b/c/1/");

    assert!(patterns.contains(&"/a/b/c/1".to_string()));

    assert!(patterns.contains(&"c/1".to_string()));
    assert!(patterns.contains(&"./c/1".to_string()));
}

#[test]
fn test_compute_patterns_for_folder_sibling() {
    let patterns = compute_patterns_for_folder("/d/", "/a/b/c/1/");

    assert!(patterns.contains(&"/a/b/c/1".to_string()));

    assert!(patterns.contains(&"../a/b/c/1".to_string()));
    assert!(patterns.contains(&"../a/b/c/1/".to_string()));
}

#[test]
fn test_compute_patterns_for_folder_deeper_sibling() {
    let patterns = compute_patterns_for_folder("/d/e/", "/a/b/c/1/");

    assert!(patterns.contains(&"/a/b/c/1".to_string()));

    assert!(patterns.contains(&"../../a/b/c/1".to_string()));
}

#[test]
fn compute_patterns_for_folder_exact_set_and_no_duplicates() {
    let mut patterns = compute_patterns_for_folder("/d/", "/a/1/");
    patterns.sort();
    let mut expected: Vec<String> = [
        "/a/1", "/a/1/", "/a/1.md", "/a/1#", "../a/1", "../a/1/", "../a/1.md", "../a/1#",
    ]
    .iter()
    .map(|s| s.to_string())
    .collect();
    expected.sort();
    assert_eq!(patterns, expected);
    assert!(compute_patterns_for_folder("/d/", "/").is_empty());
}

#[test]
fn add_pattern_variants_adds_four_spellings_once() {
    let mut patterns = Vec::new();
    add_pattern_variants(&mut patterns, "a/b/c/");
    add_pattern_variants(&mut patterns, "a/b/c");
    assert_eq!(patterns.len(), 4);
    for p in ["a/b/c", "a/b/c/", "a/b/c.md", "a/b/c#"] {
        assert!(patterns.contains(&p.to_string()), "{p}");
    }
}

#[test]
fn build_folder_patterns_pairs_each_folder() {
    let folders = vec!["/".to_string(), "/d/".to_string()];
    let built = build_folder_patterns("/a/1/", &folders);
    assert_eq!(built.len(), 2);
    assert_eq!(built[0].0, "/");
    assert!(built[0].1.contains(&"./a/1".to_string()));
    assert_eq!(built[1].0, "/d/");
    assert!(built[1].1.contains(&"../a/1".to_string()));
}

#[test]
fn test_get_folder_url_path_basic() {
    assert_eq!(get_folder_url_path("/a/b/c/"), "/a/b/");
    assert_eq!(get_folder_url_path("/a/"), "/");
    assert_eq!(get_folder_url_path("/a/b/"), "/a/");
}

#[test]
fn strip_code_regions_blanks_fences_and_spans_only() {
    let input = "a [x](y) b\n```\n[fenced](y)\n```\nc `[span](y)` d\n~~~\n[tilde](y)\n~~~\ne\n";
    let out = strip_code_regions(input);
    let out = out.as_str();
    assert!(out.contains("[x](y)"));
    assert!(!out.contains("[fenced](y)"));
    assert!(!out.contains("[span](y)"));
    assert!(!out.contains("[tilde](y)"));
    assert!(out.contains('c') && out.contains('d') && out.contains('e'));
}

#[test]
fn strip_code_regions_keeps_unclosed_backticks_literal() {
    let out = strip_code_regions("a ` b [x](y)\n");
    assert!(out.as_str().contains("[x](y)"));
}

#[test]
fn strip_code_regions_leaves_code_free_content_borrowed() {
    assert!(matches!(
        strip_code_regions("plain [x](y)\n"),
        CodeStripped::Borrowed(_)
    ));
}

#[test]
fn strip_code_regions_exact_output() {
    let out = strip_code_regions("a `b` c\r\n```rust\ncode\n```  \nd ``e`` `f\n    ```\nz");
    assert_eq!(out.as_str(), "a   c\n\n\n\nd   `f\n    ```\nz\n");
}

/// Scans pages `(from, folder, content)` for links to `target` the way the
/// repository walk does, and returns the final backlinks.
fn scan(pages: &[(&str, &str, &str)], target: &str, names: &[String]) -> Vec<InboundLink> {
    let mut links = Vec::new();
    let default_text = default_link_text_of(target);
    for (from, folder, content) in pages {
        let patterns = compute_patterns_for_folder(folder, target);
        collect_inbound_links_in(&mut links, content, from, &patterns, names, &default_text);
    }
    finish_inbound_links(links)
}

#[test]
fn backlinks_inline_link_with_text() {
    let links = scan(
        &[("/source/", "/", "# Source Page\n\nHere is a [link to target](target/).")],
        "/target/",
        &[],
    );
    assert_eq!(links.len(), 1);
    assert_eq!(links[0].from, "/source/");
    assert_eq!(links[0].text, "link to target");
    assert_eq!(links[0].anchor, None);
}

#[test]
fn backlinks_keep_the_anchor() {
    let links = scan(&[("/source/", "/", "Link: [section link](target/#section)")], "/target/", &[]);
    assert_eq!(links.len(), 1);
    assert_eq!(links[0].anchor, Some("#section".to_string()));
}

#[test]
fn backlinks_wiki_style_forms() {
    let target = "/Japan/";
    let links = scan(&[("/source/", "/", "See also: [[Japan]]")], target, &[]);
    assert_eq!(links.len(), 1);
    assert_eq!(links[0].text, "Japan");
    let links = scan(&[("/source/", "/", "Visit [[Japan|the Land of the Rising Sun]].")], target, &[]);
    assert_eq!(links[0].text, "the Land of the Rising Sun");
    let links = scan(&[("/source/", "/", "See [[Japan#History]].")], target, &[]);
    assert_eq!(links[0].anchor, Some("#History".to_string()));
    let links = scan(&[("/source/", "/", "See [[japan]] for details.")], target, &[]);
    assert_eq!(links.len(), 1);
}

#[test]
fn backlinks_one_per_source_page() {
    let links = scan(
        &[
            ("/source/", "/", "See [standard](target/) and [[target]]."),
            ("/source2/", "/", "Also see [another link](target/)."),
        ],
        "/target/",
        &[],
    );
    assert_eq!(links.len(), 2);
    assert_eq!(links[0].from, "/source/");
    assert_eq!(links[1].from, "/source2/");
}

#[test]
fn backlinks_relative_forms_from_subfolders() {
    let target = "/docs/guide/";
    let links = scan(
        &[
            ("/docs/a/", "/docs/", "[rel](guide/) "),
            ("/docs/sub/b/", "/docs/sub/", "[up](../guide/)"),
            ("/other/c/", "/other/", "[abs](/docs/guide)"),
            ("/docs/d/", "/docs/", "[md](./guide.md#top)"),
        ],
        target,
        &[],
    );
    let froms: Vec<&str> = links.iter().map(|l| l.from.as_str()).collect();
    assert_eq!(froms, vec!["/docs/a/", "/docs/d/", "/docs/sub/b/", "/other/c/"]);
    assert_eq!(links[1].anchor, Some("#top".to_string()));
}

#[test]
fn backlinks_ignore_links_in_code() {
    let content = "```\n[x](target/)\n```\nand `[y](target/)` only";
    let links = scan(&[("/source/", "/", content)], "/target/", &[]);
    assert!(links.is_empty());
}

#[test]
fn backlinks_reference_style_uses() {
    let content = "Read [the guide][g] today.\n\n[g]: /target/\n";
    let links = scan(&[("/source/", "/", content)], "/target/", &[]);
    assert_eq!(links.len(), 1);
    assert_eq!(links[0].text, "the guide");
}

#[test]
fn backlinks_bare_names_match_only_wiki_links() {
    let names = wikilink_names("japan-notes", Some("Japan"), &["Nippon".to_string(), " a/b ".to_string()]);
    assert_eq!(names, vec!["japan-notes", "Japan", "Nippon"]);
    let links = scan(&[("/s/", "/", "[Japan](Japan) [[Nippon|Land]]")], "/travel/japan-notes/", &names);
    assert_eq!(links.len(), 1);
    assert_eq!(links[0].text, "Land");
}

#[test]
fn wikilink_names_drop_case_insensitive_repeats() {
    let names = wikilink_names("Guide", Some("guide"), &["GUIDE".to_string(), "".to_string(), "x|y".to_string()]);
    assert_eq!(names, vec!["Guide"]);
}

#[test]
fn default_link_text_is_last_segment() {
    assert_eq!(default_link_text_of("/docs/guide/"), "guide");
    assert_eq!(default_link_text_of("/Japan"), "Japan");
}

#[test]
fn url_path_of_components_strips_the_extension() {
    let exts = vec!["md".to_string()];
    assert_eq!(url_path_of(&["docs".to_string(), "guide.md".to_string()], &exts), "/docs/guide/");
    assert_eq!(url_path_of(&["a".to_string(), "b".to_string(), "c".to_string(), "page.md".to_string()], &exts), "/a/b/c/page/");
    assert_eq!(url_path_of(&["NOTES.MD".to_string()], &exts), "/NOTES/");
    assert_eq!(url_path_of(&["readme.txt".to_string()], &exts), "/readme.txt/");
}

/// The path components of `file` below `root`.
fn components_below(file: &str, root: &str) -> Vec<String> {
    let relative = std::path::Path::new(file).strip_prefix(root).unwrap();
    relative
        .components()
        .map(|c| c.as_os_str().to_string_lossy().into_owned())
        .collect()
}

/// The URL a markdown file under `root` is served at, by way of its path
/// components below the root.
fn compute_url_path(file: &str, root: &str, exts: &[String]) -> String {
    url_path_of(&components_below(file, root), exts)
}

#[test]
fn test_compute_url_path_basic() {
    let extensions = vec!["md".to_string()];
    let url = compute_url_path("/home/user/notes/docs/guide.md", "/home/user/notes", &extensions);
    assert_eq!(url, "/docs/guide/");
}

#[test]
fn test_compute_url_path_nested() {
    let extensions = vec!["md".to_string()];
    let url = compute_url_path("/notes/a/b/c/page.md", "/notes", &extensions);
    assert_eq!(url, "/a/b/c/page/");
}

#[test]
fn compute_url_path_strips_uppercase_extension() {
    let extensions = vec!["md".to_string()];
    assert_eq!(compute_url_path("/notes/NOTES.MD", "/notes", &extensions), "/NOTES/");
}

#[test]
fn backlinks_do_not_depend_on_scan_order() {
    let mk = |from: &str, text: &str| InboundLink {
        from: from.to_string(),
        text: text.to_string(),
        anchor: None,
    };
    let scan_a = vec![mk("/b/", "B"), mk("/a/", "A2"), mk("/a/", "A1"), mk("/c/", "C")];
    let scan_b = vec![mk("/c/", "C"), mk("/a/", "A1"), mk("/b/", "B"), mk("/a/", "A2")];
    let a = finish_inbound_links(scan_a);
    let b = finish_inbound_links(scan_b);
    assert_eq!(a, b);
    let froms: Vec<&str> = a.iter().map(|l| l.from.as_str()).collect();
    assert_eq!(froms, vec!["/a/", "/b/", "/c/"]);
    assert_eq!(a[0].text, "A1");
}

#[test]
fn page_and_folder_urls_collapses_index_but_keeps_link_base() {
    let extensions = vec!["md".to_string()];
    let (page, folder) = page_and_folder_urls(
        &components_below("/notes/docs/index.md", "/notes"),
        &extensions,
        Some("index.md"),
    );
    assert_eq!(page, "/docs/");
    assert_eq!(folder, "/docs/");

    let (page, folder) = page_and_folder_urls(
        &components_below("/notes/docs/guide.md", "/notes"),
        &extensions,
        Some("index.md"),
    );
    assert_eq!(page, "/docs/guide/");
    assert_eq!(folder, "/docs/");
}

#[test]
fn page_and_folder_urls_without_index_file_keeps_positional_url() {
    let extensions = vec!["md".to_string()];
    let (page, folder) =
        page_and_folder_urls(&components_below("/notes/docs/index.md", "/notes"), &extensions, None);
    assert_eq!(page, "/docs/index/");
    assert_eq!(folder, "/docs/");
}

#[test]
fn page_and_folder_urls_of_root_pages() {
    let extensions = vec!["md".to_string()];
    let (page, folder) =
        page_and_folder_urls(&components_below("/notes/index.md", "/notes"), &extensions, Some("index.md"));
    assert_eq!(page, "/");
    assert_eq!(folder, "/");
    let (page, _) =
        page_and_folder_urls(&components_below("/notes/a/b/c/page.md", "/notes"), &extensions, Some("index.md"));
    assert_eq!(page, "/a/b/c/page/");
}

#[test]
fn backlinks_match_title_and_alias_wikilinks() {
    let meta = extract_metadata_from_text("---\ntitle: Patrick Walsh\naliases: [PW]\n---\n\n# Patrick Walsh\n");
    let names = wikilink_names_for_target("pw", &meta);
    // "PW" repeats the stem without regard to case, and wiki links match without case.
    assert_eq!(names, vec!["pw", "Patrick Walsh"]);
    let links = scan(&[("/notes/family/", "/notes/", "See [[Patrick Walsh]] and also [[PW]].")], "/people/pw/", &names);
    assert_eq!(links.len(), 1);
    assert_eq!(links[0].from, "/notes/family/");
}

#[test]
fn wikilink_names_for_target_ignore_non_string_title_and_aliases() {
    let meta = extract_metadata_from_text("---\ntitle: 42\naliases: solo\n---\n");
    assert_eq!(wikilink_names_for_target("page", &meta), vec!["page"]);
    let meta = extract_metadata_from_text("# Heading Title\n");
    assert_eq!(wikilink_names_for_target("page", &meta), vec!["page", "Heading Title"]);
}

#[test]
fn relative_paths_between_folders_resolve_back() {
    let folders = ["/", "/a/", "/a/b/", "/c/d/e/", "/a/x/"];
    for source in folders {
        for target in folders {
            let rel = compute_relative_path(source, target);
            assert_eq!(mbr::link_index::resolve_relative_url(source, &rel, true), target, "{source} -> {target} via {rel}");
        }
    }
}

#[test]
fn finished_backlinks_are_sorted_with_one_per_source() {
    let link = |from: &str, text: &str| InboundLink { from: from.to_string(), text: text.to_string(), anchor: None };
    let out = finish_inbound_links(vec![link("/z/", "b"), link("/a/", "y"), link("/z/", "a"), link("/m/", "x")]);
    let froms: Vec<&str> = out.iter().map(|l| l.from.as_str()).collect();
    assert_eq!(froms, vec!["/a/", "/m/", "/z/"]);
    assert_eq!(out[2].text, "a");
}
