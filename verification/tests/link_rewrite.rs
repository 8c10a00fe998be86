use mbr::link_rewrite::{
    collect_move_bases, folder_of, markdown_ext_suffix, reclassify_target, relocate_link_target,
    rewrite_bare_wikilink, rewrite_links_for_move, rewrite_moved_file_outbound_links,
};


// ===== rewrite_links_for_move: inline links =====

#[test]
fn absolute_inline_link_rewritten() {
    // A sibling folder links absolutely; style preserved.
    let content = "See [Guide](/docs/guide/).";
    let out = rewrite_links_for_move("/docs/guide/", "/docs/manual/", "/notes/", content);
    assert_eq!(out, "See [Guide](/docs/manual/).");
}

#[test]
fn relative_inline_link_rewritten() {
    // Same-folder relative link: /docs/ folder → `guide/`.
    let content = "See [Guide](guide/).";
    let out = rewrite_links_for_move("/docs/guide/", "/docs/manual/", "/docs/", content);
    assert_eq!(out, "See [Guide](manual/).");
}

#[test]
fn dot_slash_relative_link_rewritten() {
    let content = "See [Guide](./guide/).";
    let out = rewrite_links_for_move("/docs/guide/", "/docs/manual/", "/docs/", content);
    assert_eq!(out, "See [Guide](./manual/).");
}

#[test]
fn parent_traversal_relative_link_rewritten() {
    // From /docs/sub/ a link to /docs/guide/ is `../guide/`.
    let content = "See [Guide](../guide/).";
    let out = rewrite_links_for_move("/docs/guide/", "/docs/manual/", "/docs/sub/", content);
    assert_eq!(out, "See [Guide](../manual/).");
}

#[test]
fn md_extension_preserved() {
    let content = "See [Guide](guide.md).";
    let out = rewrite_links_for_move("/docs/guide/", "/docs/manual/", "/docs/", content);
    assert_eq!(out, "See [Guide](manual.md).");
}

#[test]
fn trailing_slash_and_anchor_preserved() {
    let content = "See [Guide](/docs/guide/#intro).";
    let out = rewrite_links_for_move("/docs/guide/", "/docs/manual/", "/notes/", content);
    assert_eq!(out, "See [Guide](/docs/manual/#intro).");
}

#[test]
fn query_string_preserved() {
    let content = "See [Guide](/docs/guide?tab=1).";
    let out = rewrite_links_for_move("/docs/guide/", "/docs/manual/", "/notes/", content);
    assert_eq!(out, "See [Guide](/docs/manual?tab=1).");
}

#[test]
fn md_extension_with_anchor_preserved() {
    let content = "See [Guide](guide.md#intro).";
    let out = rewrite_links_for_move("/docs/guide/", "/docs/manual/", "/docs/", content);
    assert_eq!(out, "See [Guide](manual.md#intro).");
}

// ===== rewrite_links_for_move: prefix-collision negative =====

#[test]
fn prefix_collision_not_rewritten() {
    // Moving /docs/guide must NOT touch links to /docs/guide-2.
    let content = "A [x](/docs/guide-2/) and [y](/docs/guide/).";
    let out = rewrite_links_for_move("/docs/guide/", "/docs/manual/", "/notes/", content);
    assert_eq!(out, "A [x](/docs/guide-2/) and [y](/docs/manual/).");
}

#[test]
fn prefix_collision_relative_not_rewritten() {
    let content = "A [x](guide-2/) and [y](guide/).";
    let out = rewrite_links_for_move("/docs/guide/", "/docs/manual/", "/docs/", content);
    assert_eq!(out, "A [x](guide-2/) and [y](manual/).");
}

// ===== rewrite_links_for_move: reference definitions =====

#[test]
fn reference_definition_rewritten_use_untouched() {
    // The [ref]: url definition is rewritten; the [text][ref] use is not a URL.
    let content = "Intro [see][g] more.\n\n[g]: /docs/guide/\n";
    let out = rewrite_links_for_move("/docs/guide/", "/docs/manual/", "/notes/", content);
    assert_eq!(out, "Intro [see][g] more.\n\n[g]: /docs/manual/\n");
}

#[test]
fn reference_definition_prefix_collision_not_rewritten() {
    let content = "[g]: /docs/guide-2/\n";
    let out = rewrite_links_for_move("/docs/guide/", "/docs/manual/", "/notes/", content);
    assert_eq!(out, "[g]: /docs/guide-2/\n");
}

#[test]
fn reference_definition_with_title_rewritten() {
    let content = "[g]: /docs/guide \"The Guide\"\n";
    let out = rewrite_links_for_move("/docs/guide/", "/docs/manual/", "/notes/", content);
    assert_eq!(out, "[g]: /docs/manual \"The Guide\"\n");
}

// ===== rewrite_links_for_move: path-style wiki links =====

#[test]
fn path_wiki_with_display_rewritten() {
    let content = "See [[docs/guide|The Guide]].";
    let out = rewrite_links_for_move("/docs/guide/", "/docs/manual/", "/", content);
    assert_eq!(out, "See [[docs/manual|The Guide]].");
}

#[test]
fn path_wiki_with_anchor_rewritten() {
    let content = "See [[docs/guide#intro]].";
    let out = rewrite_links_for_move("/docs/guide/", "/docs/manual/", "/", content);
    assert_eq!(out, "See [[docs/manual#intro]].");
}

#[test]
fn bare_wiki_left_untouched_by_move() {
    // A bare [[guide]] (no slash) is handled by the rename path, not here.
    let content = "See [[guide]].";
    let out = rewrite_links_for_move("/docs/guide/", "/docs/manual/", "/docs/", content);
    assert_eq!(out, "See [[guide]].");
}

// ===== rewrite_links_for_move: idempotence =====

#[test]
fn rewrite_is_idempotent() {
    let content = "See [Guide](/docs/guide/) and [rel](guide/) and [[docs/guide]].";
    let once = rewrite_links_for_move("/docs/guide/", "/docs/manual/", "/docs/", content);
    let twice = rewrite_links_for_move("/docs/guide/", "/docs/manual/", "/docs/", &once);
    assert_eq!(once, twice);
}

// ===== rewrite_moved_file_outbound_links (A4-B) =====

#[test]
fn moved_file_same_folder_leaves_relative_links() {
    // Rename within the same folder: sibling links are unchanged...
    let exts = vec!["md".to_string()];
    let content = "See [Other](other/) and [abs](/x/).";
    let out = rewrite_moved_file_outbound_links(
        "/docs/guide/",
        false,
        "/docs/manual/",
        false,
        &exts,
        content,
    );
    assert_eq!(out, "See [Other](other/) and [abs](/x/).");
}

#[test]
fn moved_file_self_link_repointed() {
    // ...but a self-link is re-pointed at the new name.
    let exts = vec!["md".to_string()];
    let content = "Back to [me](guide/).";
    let out = rewrite_moved_file_outbound_links(
        "/docs/guide/",
        false,
        "/docs/manual/",
        false,
        &exts,
        content,
    );
    assert_eq!(out, "Back to [me](manual/).");
}

#[test]
fn moved_file_cross_folder_rebases_relative_links() {
    // Move /a/guide.md → /b/guide.md: sibling link `other/` (meaning /a/other/)
    // must become `../a/other/`.
    let exts = vec!["md".to_string()];
    let content = "See [Other](other/).";
    let out = rewrite_moved_file_outbound_links(
        "/a/guide/",
        false,
        "/b/guide/",
        false,
        &exts,
        content,
    );
    assert_eq!(out, "See [Other](../a/other/).");
}

#[test]
fn moved_file_absolute_and_external_untouched() {
    let exts = vec!["md".to_string()];
    let content = "A [abs](/x/y/) and [ext](https://example.com/) and [anchor](#top).";
    let out = rewrite_moved_file_outbound_links(
        "/a/guide/",
        false,
        "/b/guide/",
        false,
        &exts,
        content,
    );
    assert_eq!(out, content);
}

#[test]
fn moved_index_file_self_link_repointed() {
    // Index page /docs/ (docs/index.md) moving to /guides/ (guides/index.md).
    // A self link `./` or `../docs/` resolving to itself is repointed.
    let exts = vec!["md".to_string()];
    let content = "See [child](child/).";
    let out =
        rewrite_moved_file_outbound_links("/docs/", true, "/guides/", true, &exts, content);
    // child/ (meaning /docs/child/) becomes ../docs/child/ from /guides/.
    assert_eq!(out, "See [child](../docs/child/).");
}

// ===== rewrite_bare_wikilink (A4-C pure) =====

#[test]
fn bare_wikilink_rewritten_case_insensitive() {
    let out = rewrite_bare_wikilink("See [[Guide]] now.", "guide", "manual");
    assert_eq!(out, "See [[manual]] now.");
}

#[test]
fn bare_wikilink_preserves_anchor_and_display() {
    let out = rewrite_bare_wikilink("See [[guide#intro|The Guide]].", "guide", "manual");
    assert_eq!(out, "See [[manual#intro|The Guide]].");
}

#[test]
fn bare_wikilink_prefix_collision_untouched() {
    let out = rewrite_bare_wikilink("See [[guide-2]] and [[guide]].", "guide", "manual");
    assert_eq!(out, "See [[guide-2]] and [[manual]].");
}

#[test]
fn bare_wikilink_multiword_name() {
    let out = rewrite_bare_wikilink("See [[Patrick Walsh]].", "Patrick Walsh", "pw");
    assert_eq!(out, "See [[pw]].");
}

// ===== collect_move_bases / index-vs-nonindex =====

#[test]
fn index_base_computation_nonindex_folder() {
    // From folder /docs/ the same-folder page uses `guide` relative form.
    let bases = collect_move_bases("/docs/", "/docs/guide/");
    assert!(bases.contains(&"/docs/guide".to_string()));
    assert!(bases.contains(&"guide".to_string()));
    assert!(bases.contains(&"./guide".to_string()));
}

#[test]
fn index_target_absolute_link_rewritten() {
    // Moving an index page /docs/ → /guides/: an absolute link is rewritten.
    let content = "Home [docs](/docs/).";
    let out = rewrite_links_for_move("/docs/", "/guides/", "/notes/", content);
    assert_eq!(out, "Home [docs](/guides/).");
}

#[test]
fn move_bases_are_longest_first_and_distinct() {
    assert_eq!(collect_move_bases("/docs/", "/docs/guide/"), vec!["/docs/guide", "./guide", "guide"]);
    assert_eq!(collect_move_bases("/docs/sub/", "/docs/guide/"), vec!["/docs/guide", "../guide"]);
    assert_eq!(collect_move_bases("/docs/", "/docs/"), vec!["/docs"]);
}

#[test]
fn reclassify_keeps_the_link_style() {
    assert_eq!(reclassify_target("/docs/guide", "/docs/manual", "manual"), "/docs/manual");
    assert_eq!(reclassify_target("./guide", "/docs/manual", "manual"), "./manual");
    assert_eq!(reclassify_target("guide", "/docs/manual", "manual"), "manual");
}

#[test]
fn folder_of_index_and_plain_pages() {
    assert_eq!(folder_of("/docs/", true), "/docs/");
    assert_eq!(folder_of("/", true), "/");
    assert_eq!(folder_of("/docs/guide/", false), "/docs/");
    assert_eq!(folder_of("/guide/", false), "/");
}

#[test]
fn markdown_suffix_of_the_last_segment() {
    let exts = vec!["md".to_string(), "markdown".to_string()];
    assert_eq!(markdown_ext_suffix("a/intro.MD", &exts), Some(".MD".to_string()));
    assert_eq!(markdown_ext_suffix("intro.markdown/", &exts), Some(".markdown".to_string()));
    assert_eq!(markdown_ext_suffix("a.md/intro", &exts), None);
    assert_eq!(markdown_ext_suffix("photo.png", &exts), None);
}

#[test]
fn relocate_keeps_suffix_and_dot_prefix() {
    let exts = vec!["md".to_string()];
    assert_eq!(
        relocate_link_target("./other.md#x", "/a/guide/", false, "/b/", "/b/guide/", &exts),
        Some("../a/other.md#x".to_string())
    );
    assert_eq!(
        relocate_link_target("/abs/", "/a/guide/", false, "/b/", "/b/guide/", &exts),
        None
    );
    assert_eq!(
        relocate_link_target("guide/", "/a/guide/", false, "/b/", "/b/guide/", &exts),
        Some("guide/".to_string())
    );
}

#[test]
fn bare_wikilink_ignores_path_names_and_blank_names() {
    assert_eq!(rewrite_bare_wikilink("[[a/b]]", "a/b", "c"), "[[a/b]]");
    assert_eq!(rewrite_bare_wikilink("[[ ]]", "  ", "c"), "[[ ]]");
    assert_eq!(rewrite_bare_wikilink("[[ Guide ]] x", " guide ", "new"), "[[new]] x");
}

#[test]
fn move_of_the_root_changes_nothing() {
    assert_eq!(rewrite_links_for_move("/", "/x/", "/", "[a](/)"), "[a](/)");
}

#[test]
fn a_page_is_rewritten_only_when_its_folder_gate_lets_it_through() {
    let patterns = mbr::link_grep::compute_patterns_for_folder("/docs/", "/docs/guide/");
    let linked = "See [Guide](guide/).";
    assert_eq!(
        mbr::link_rewrite::rewrite_page_for_move("/docs/guide/", "/docs/manual/", "/docs/", &patterns, linked),
        Some("See [Guide](manual/).".to_string())
    );
    // Nothing to rewrite: the page is left alone.
    assert_eq!(
        mbr::link_rewrite::rewrite_page_for_move("/docs/guide/", "/docs/manual/", "/docs/", &patterns, "No links."),
        None
    );
    // Without spellings to look for, no page is touched.
    assert_eq!(
        mbr::link_rewrite::rewrite_page_for_move("/docs/guide/", "/docs/manual/", "/docs/", &[], linked),
        None
    );
}
