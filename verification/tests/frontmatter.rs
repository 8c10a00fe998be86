use mbr::frontmatter::{
    extract_metadata_from_text, yaml_frontmatter_simplified, yaml_hash_to_metadata, MetaValue, Metadata, YamlValue,
};

const BOM_DOC: &str = "\u{feff}---\ntitle: My Page\ntags:\n  - alpha\n---\n\nBody text.\n";

fn text(s: &str) -> MetaValue {
    MetaValue::Text(s.to_string())
}

fn ystr(s: &str) -> YamlValue {
    YamlValue::Str(s.to_string())
}

#[test]
fn yaml_loader_yields_no_documents_for_comment_only_frontmatter() {
    assert!(yaml_rust2::YamlLoader::load_from_str("# tags: [draft]")
        .expect("comment-only YAML parses")
        .is_empty());
    assert!(extract_metadata_from_text("---\n# tags: [draft]\n---\n").is_empty());
}

#[test]
fn extract_metadata_survives_comment_only_frontmatter() {
    let meta = extract_metadata_from_text("---\n# tags: [draft]\n---\n\nBody text.\n");
    assert!(meta.is_empty(), "comment-only frontmatter yields no metadata, got: {:?}", meta);
}

#[test]
fn bom_prefixed_frontmatter_extracts_metadata() {
    let meta = extract_metadata_from_text(BOM_DOC);
    assert_eq!(meta.get("title"), Some(&text("My Page")));
    assert!(meta.contains_key("tags"));
}

#[test]
fn frontmatter_values_keep_their_kind() {
    let md = "---\ntitle: Guide\ncount: 3\ndraft: true\nratio: 1.5\ntags: [a, b, 7]\n---\n\n# Heading\n";
    let meta = extract_metadata_from_text(md);
    assert_eq!(meta.get("title"), Some(&text("Guide")));
    assert_eq!(meta.get("count"), Some(&MetaValue::Integer(3)));
    assert_eq!(meta.get("draft"), Some(&MetaValue::Boolean(true)));
    assert_eq!(meta.get("ratio"), Some(&text("1.5")));
    assert_eq!(meta.get("tags"), Some(&MetaValue::List(vec!["a".to_string(), "b".to_string()])));
    assert_eq!(meta.len(), 5);
}

#[test]
fn nested_frontmatter_is_flattened_with_dots() {
    let md = "---\nauthor:\n  name: Ann\n  links:\n    site: example.org\n---\n";
    let meta = extract_metadata_from_text(md);
    assert_eq!(meta.get("author.name"), Some(&text("Ann")));
    assert_eq!(meta.get("author.links.site"), Some(&text("example.org")));
    assert!(!meta.contains_key("author"));
    assert_eq!(meta.len(), 2);
}

#[test]
fn title_falls_back_to_the_first_h1() {
    let meta = extract_metadata_from_text("# My Document Title\n\nSome content here.");
    assert_eq!(meta.get("title"), Some(&text("My Document Title")));
}

#[test]
fn frontmatter_title_takes_precedence_over_h1() {
    let meta = extract_metadata_from_text("---\ntitle: Frontmatter Title\n---\n\n# H1 Title");
    assert_eq!(meta.get("title"), Some(&text("Frontmatter Title")));
}

#[test]
fn no_title_without_frontmatter_or_h1() {
    let meta = extract_metadata_from_text("Just some text.\n\n## Second level");
    assert!(meta.get("title").is_none());
    assert!(meta.is_empty());
}

#[test]
fn invalid_yaml_discards_the_whole_block() {
    let meta = extract_metadata_from_text("---\ntitle: [unclosed\ntags: x\n---\n\n# Fallback\n");
    assert_eq!(meta.get("title"), Some(&text("Fallback")));
    assert_eq!(meta.len(), 1);
}

#[test]
fn non_mapping_documents_give_no_metadata() {
    assert!(yaml_frontmatter_simplified(&None).is_empty());
    assert!(yaml_frontmatter_simplified(&Some(ystr("just text"))).is_empty());
    assert!(yaml_frontmatter_simplified(&Some(YamlValue::Array(vec![ystr("a")]))).is_empty());
}

#[test]
fn later_keys_replace_earlier_ones_and_odd_keys_are_skipped() {
    let hash = vec![
        (ystr("a.b"), ystr("first")),
        (ystr("a"), YamlValue::Hash(vec![(ystr("b"), ystr("second"))])),
        (YamlValue::Integer(1), ystr("numeric key")),
        (ystr("nothing"), YamlValue::Other),
    ];
    let meta = yaml_hash_to_metadata(&hash);
    assert_eq!(meta.get("a.b"), Some(&text("second")));
    assert_eq!(meta.len(), 1);
}

#[test]
fn metadata_insert_replaces_and_counts_keys_once() {
    let mut m = Metadata::new();
    m.insert("k".to_string(), text("one"));
    m.insert("k".to_string(), text("two"));
    m.insert("j".to_string(), MetaValue::Integer(2));
    assert_eq!(m.len(), 2);
    assert_eq!(m.get("k"), Some(&text("two")));
    assert_eq!(m.entries().len(), 2);
}
